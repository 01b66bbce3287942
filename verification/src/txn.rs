//! A transaction: a stable snapshot, and changes that no one else sees before
//! they are committed.

use crate::bytes::{self, same_text, Place};
use crate::cow::{self, CowMap};
use crate::error::{invalid, table_not_found, Error, ErrorView};
use crate::ids::{self, IdSource};
use crate::model;
use crate::order::{Datum, OrderedKey};
use crate::pairs;
use crate::prepare::{StagedChange, StagedTable};
use crate::publish::PreviousView;
use crate::reads;
use crate::record::{self, check_value, normalize_record, staged_operation_bytes, Record, RecordView};
use crate::schema::{self, ColumnView, TableSchema, TableView};
use crate::staged::StagedView;
use crate::state::{self, State};
use crate::text::{self, decimal_text};
use crate::value::{BlobRef, Value, ValueView};
use vstd::prelude::*;
use vstd::string::*;
use vstd::utf8::*;

verus! {

/// What a transaction does to a record: the new contents, or its deletion.
pub struct Operation {
    pub record: Option<Record>,
}

impl View for Operation {
    type V = Option<RecordView>;

    open spec fn view(&self) -> Option<RecordView> {
        match self.record {
            Some(rec) => Some(rec@),
            None => None,
        }
    }
}

impl Datum for Operation {
    open spec fn valid(&self) -> bool {
        self.record matches Some(rec) ==> rec.wf()
    }

    fn duplicate(&self) -> (r: Self) {
        Operation {
            record: match &self.record {
                Some(rec) => Some(rec.duplicate_map()),
                None => None,
            },
        }
    }
}

/// A table that a transaction touched.
pub struct TxnTable {
    pub name: String,
    pub schema: TableSchema,
    /// The greatest id of the table when the transaction first touched it.
    pub high: Option<String>,
    pub operations: CowMap<String, Operation>,
}

#[verifier::ext_equal]
pub struct TxnTableView {
    pub name: Seq<char>,
    pub schema: TableView,
    pub high: Option<Seq<char>>,
    pub operations: Map<Seq<u8>, Option<RecordView>>,
}

impl View for TxnTable {
    type V = TxnTableView;

    open spec fn view(&self) -> TxnTableView {
        TxnTableView {
            name: self.name@,
            schema: self.schema@,
            high: model::text_view(self.high),
            operations: self.operations@,
        }
    }
}

pub struct Txn {
    /// The version that the transaction reads.
    pub snapshot: u64,
    pub tables: Vec<TxnTable>,
    /// The estimated memory of its changes.
    pub bytes: usize,
}

#[verifier::ext_equal]
pub struct TxnView {
    pub snapshot: u64,
    pub tables: Seq<TxnTableView>,
    pub bytes: usize,
}

impl View for Txn {
    type V = TxnView;

    open spec fn view(&self) -> TxnView {
        TxnView { snapshot: self.snapshot, tables: model::views(self.tables@), bytes: self.bytes }
    }
}

pub open spec fn txn_names(tables: Seq<TxnTableView>) -> Seq<Seq<char>> {
    Seq::new(tables.len(), |i: int| tables[i].name)
}

impl TxnView {
    pub open spec fn position(self, table: Seq<char>) -> Option<int> {
        model::find(txn_names(self.tables), table)
    }

    /// What the transaction does to a record, where it does anything.
    pub open spec fn operation(self, table: Seq<char>, id: Seq<char>) -> Option<Option<RecordView>> {
        match self.position(table) {
            Some(i) => if self.tables[i].operations.contains_key(encode_utf8(id)) {
                Some(self.tables[i].operations[encode_utf8(id)])
            } else {
                None
            },
            None => None,
        }
    }

    /// The transaction once it has touched a table, where there is one.
    pub open spec fn touching(self, st: &State, table: Seq<char>) -> Option<TxnView> {
        if self.position(table) is Some {
            Some(self)
        } else {
            match st.table_view(table) {
                None => None,
                Some(t) => Some(
                    TxnView {
                        tables: self.tables.push(
                            TxnTableView {
                                name: table,
                                schema: t,
                                high: if st.high_ids@.contains_key(encode_utf8(table)) {
                                    Some(st.high_ids@[encode_utf8(table)])
                                } else {
                                    None
                                },
                                operations: Map::empty(),
                            },
                        ),
                        ..self
                    },
                ),
            }
        }
    }

    /// The schema that a touched table had when it was first touched.
    pub open spec fn schema_of(self, table: Seq<char>) -> TableView {
        self.tables[self.position(table)->0].schema
    }

    /// The record that the transaction reads: its own change, else the
    /// snapshot's.
    pub open spec fn row(self, st: &State, table: Seq<char>, id: Seq<char>) -> Result<Option<RecordView>, ErrorView> {
        match self.operation(table, id) {
            Some(Some(rec)) => Ok(Some(rec.insert(record::id_key(), ValueView::Text(id)))),
            Some(None) => Ok(None),
            None => st.row(table, id, self.snapshot),
        }
    }

    /// Whether a record with the id is there for a deletion.
    pub open spec fn has(self, st: &State, table: Seq<char>, id: Seq<char>) -> bool {
        match self.operation(table, id) {
            Some(op) => op is Some,
            None => st.shows(table, encode_utf8(id), self.snapshot),
        }
    }

    /// Whether a record with the id stands in the way of an insertion. An id
    /// above the greatest one of the table needs no look at the table.
    pub open spec fn taken(self, st: &State, table: Seq<char>, id: Seq<char>) -> bool {
        match self.operation(table, id) {
            Some(op) => op is Some,
            None => !above(self.tables[self.position(table)->0].high, id) && st.shows(table, encode_utf8(id), self.snapshot),
        }
    }

    /// The memory of the changes with one more.
    pub open spec fn projected(self, table: Seq<char>, id: Seq<char>, op: Option<RecordView>) -> int {
        let before = match self.operation(table, id) {
            Some(was) => change_bytes(table, id, was),
            None => 0,
        };
        let rest = if self.bytes > before {
            self.bytes - before
        } else {
            0
        };
        record::capped(rest + change_bytes(table, id, op))
    }

    /// The transaction with one more change.
    pub open spec fn changed(self, table: Seq<char>, id: Seq<char>, op: Option<RecordView>) -> TxnView {
        let i = self.position(table)->0;
        TxnView {
            tables: self.tables.update(
                i,
                TxnTableView { operations: self.tables[i].operations.insert(encode_utf8(id), op), ..self.tables[i] },
            ),
            bytes: self.projected(table, id, op) as usize,
            ..self
        }
    }
}

pub open spec fn above(high: Option<Seq<char>>, id: Seq<char>) -> bool {
    high matches Some(h) ==> bytes::lex_lt(encode_utf8(h), encode_utf8(id))
}

/// The estimated memory of one change.
pub open spec fn change_bytes(table: Seq<char>, id: Seq<char>, op: Option<RecordView>) -> int {
    record::operation_estimate(
        table,
        id,
        match op {
            Some(rec) => Some(reads::fields_of(rec)),
            None => None,
        },
    )
}

pub open spec fn staging_error(projected: int, limit: usize) -> ErrorView {
    ErrorView::MemoryLimit(
        "transaction staging needs an estimated "@ + text::decimal(projected as nat)
            + " bytes, but memory.index_delta_pool_bytes is "@ + text::decimal(limit as nat) + "; commit smaller batches"@,
    )
}

/// What staging a change comes to.
pub open spec fn staged_outcome(
    before: TxnView,
    limit: usize,
    table: Seq<char>,
    id: Seq<char>,
    op: Option<RecordView>,
    after: TxnView,
    error: Option<ErrorView>,
) -> bool {
    let projected = before.projected(table, id, op);
    if projected > limit {
        after == before && error == Some(staging_error(projected, limit))
    } else {
        after == before.changed(table, id, op) && error is None
    }
}

/// What inserting a record under an id comes to.
pub open spec fn insert_outcome(
    before: TxnView,
    st: &State,
    limit: usize,
    table: Seq<char>,
    id: Seq<char>,
    rec: RecordView,
    after: TxnView,
    error: Option<ErrorView>,
) -> bool {
    match before.touching(st, table) {
        None => after == before && error == Some(ErrorView::TableNotFound(table)),
        Some(tx) => {
            let columns = tx.schema_of(table).columns;
            let body = rec.remove(record::id_key());
            if !record::names_known(columns, body) {
                after == tx && exists|name: Seq<char>|
                    record::first_unknown(columns, body, #[trigger] encode_utf8(name)) && error == Some(
                        record::unknown_column(name),
                    )
            } else {
                match record::with_columns(columns, body) {
                    Err(e) => after == tx && error == Some(e),
                    Ok(full) => if tx.taken(st, table, id) {
                        after == tx && error == Some(ErrorView::DuplicateId { table, id })
                    } else {
                        staged_outcome(tx, limit, table, id, Some(full), after, error)
                    },
                }
            }
        },
    }
}

/// A record with the first fields of a patch put over it, each checked.
pub open spec fn patched(columns: Seq<ColumnView>, rec: RecordView, patch: Seq<(Seq<u8>, ValueView)>) -> Result<RecordView, ErrorView>
    decreases patch.len(),
{
    if patch.len() == 0 {
        Ok(rec)
    } else {
        match patched(columns, rec, patch.drop_last()) {
            Err(e) => Err(e),
            Ok(r) => patched_one(columns, r, patch.last().0, patch.last().1),
        }
    }
}

pub open spec fn patched_one(columns: Seq<ColumnView>, rec: RecordView, name: Seq<u8>, v: ValueView) -> Result<RecordView, ErrorView> {
    let text = decode_utf8(name);
    match schema::column_of(columns, text) {
        None => Err(record::unknown_column(text)),
        Some(c) => match record::value_error(c, v) {
            Some(e) => Err(e),
            None => Ok(rec.insert(name, v)),
        },
    }
}

/// What updating a record comes to.
pub open spec fn update_outcome(
    before: TxnView,
    st: &State,
    limit: usize,
    table: Seq<char>,
    id: Seq<char>,
    patch: RecordView,
    after: TxnView,
    error: Option<ErrorView>,
) -> bool {
    if patch.contains_key(record::id_key()) {
        after == before && error == Some(ErrorView::InvalidArgument("the primary key cannot be updated"@))
    } else {
        match before.touching(st, table) {
            None => after == before && error == Some(ErrorView::TableNotFound(table)),
            Some(tx) => match tx.row(st, table, id) {
                Err(e) => after == tx && error == Some(e),
                Ok(None) => after == tx && error == Some(ErrorView::RecordNotFound { table, id }),
                Ok(Some(rec)) => match patched(tx.schema_of(table).columns, rec.remove(record::id_key()), reads::fields_of(patch)) {
                    Err(e) => after == tx && error == Some(e),
                    Ok(new) => staged_outcome(tx, limit, table, id, Some(new), after, error),
                },
            },
        }
    }
}

/// What deleting a record comes to; `found` says whether there was one.
pub open spec fn delete_outcome(
    before: TxnView,
    st: &State,
    limit: usize,
    table: Seq<char>,
    id: Seq<char>,
    after: TxnView,
    found: bool,
    error: Option<ErrorView>,
) -> bool {
    match before.touching(st, table) {
        None => after == before && error == Some(ErrorView::TableNotFound(table)),
        Some(tx) => if !tx.has(st, table, id) {
            after == tx && error is None && !found
        } else {
            staged_outcome(tx, limit, table, id, None, after, error) && (error is None ==> found)
        },
    }
}

/// The id that a record asks for: none, or what is wrong with it.
pub open spec fn asked_id(rec: RecordView) -> Result<Option<Seq<char>>, ErrorView> {
    if !rec.contains_key(record::id_key()) {
        Ok(None)
    } else {
        match rec[record::id_key()] {
            ValueView::Text(s) => if s.len() > 0 {
                Ok(Some(s))
            } else {
                Err(ErrorView::InvalidArgument("id must not be empty"@))
            },
            _ => Err(ErrorView::SchemaViolation("id must be a text value"@)),
        }
    }
}

/// The id of a new record: the one that the record asks for, of which the source
/// takes notice, or a new one.
pub fn choose_id(ids: &mut IdSource, rec: &Record) -> (r: Result<String, Error>)
    requires
        rec.wf(),
    ensures
        match asked_id(rec@) {
            Err(e) => r is Err && r->Err_0@ == e && final(ids).previous == old(ids).previous,
            Ok(Some(id)) => r is Ok && r->Ok_0@ == id && final(ids).previous == ids::noticed(old(ids).previous, id),
            Ok(None) => match r {
                Ok(id) => final(ids).previous > old(ids).previous && ids::ulid_value(id@) == Some(final(ids).previous) && id@
                    == ids::ulid_text(final(ids).previous),
                Err(e) => final(ids).previous == old(ids).previous && ids::incremented(old(ids).previous) is None && e@
                    == ErrorView::InvalidArgument("cannot generate id: ULID overflow"@),
            },
        },
{
    match rec.get(schema::ID_COLUMN.as_bytes()) {
        None => ids.generate(),
        Some(Value::Text(s)) => {
            if s.as_str().unicode_len() == 0 {
                return Err(invalid("id must not be empty"));
            }
            ids.observe(s.as_str());
            Ok(s.clone())
        },
        Some(_) => Err(Error::SchemaViolation("id must be a text value".to_owned())),
    }
}

impl Txn {
    pub open spec fn wf(&self) -> bool {
        &&& forall|i: int| 0 <= i < self.tables@.len() ==> (#[trigger] self.tables@[i]).operations.wf()
        &&& forall|i: int| 0 <= i < self.tables@.len() ==> state::schema_fits((#[trigger] self.tables@[i]).schema@)
        &&& model::distinct(txn_names(self@.tables))
    }

    /// A transaction that reads what is committed now.
    pub fn begin(st: &State) -> (r: Txn)
        ensures
            r.wf(),
            r@ == (TxnView { snapshot: st.committed_version, tables: Seq::empty(), bytes: 0 }),
    {
        let r = Txn { snapshot: st.committed_version, tables: Vec::new(), bytes: 0 };
        assert(r@.tables =~= Seq::empty());
        r
    }

    pub fn snapshot_version(&self) -> (r: u64)
        ensures
            r == self@.snapshot,
    {
        self.snapshot
    }

    fn find(&self, table: &str) -> (r: Option<usize>)
        ensures
            match self@.position(table@) {
                Some(i) => r is Some && r->0 == i && i < self.tables@.len() && self.tables@[i].name@ == table@,
                None => r is None,
            },
    {
        let ghost names = txn_names(self@.tables);
        let mut i: usize = 0;
        while i < self.tables.len()
            invariant
                i <= self.tables@.len(),
                names == txn_names(self@.tables),
                forall|j: int| 0 <= j < i ==> names[j] != table@,
            decreases self.tables@.len() - i,
        {
            assert(names[i as int] == self.tables@[i as int].name@);
            if same_text(self.tables[i].name.as_str(), table) {
                proof {
                    model::lemma_find_is(names, table@, i as int);
                }
                return Some(i);
            }
            i = i + 1;
        }
        proof {
            model::lemma_find_none(names, table@);
        }
        None
    }

    fn find_operation(&self, table: &str, id: &str) -> (r: Option<&Operation>)
        requires
            self.wf(),
        ensures
            match self@.operation(table@, id@) {
                Some(op) => r is Some && r->0@ == op && r->0.valid(),
                None => r is None,
            },
    {
        match self.find(table) {
            Some(i) => {
                assert(self@.tables[i as int] == self.tables@[i as int]@);
                self.tables[i].operations.get(id.as_bytes())
            },
            None => None,
        }
    }

    /// Remember the schema of a table, and its greatest id, when it is touched
    /// for the first time.
    pub fn schema(&mut self, st: &State, table: &str) -> (r: Result<usize, Error>)
        requires
            old(self).wf(),
            st.wf(),
        ensures
            final(self).wf(),
            match old(self)@.touching(st, table@) {
                None => r is Err && r->Err_0@ == ErrorView::TableNotFound(table@) && final(self)@ == old(self)@,
                Some(tx) => r is Ok && final(self)@ == tx && tx.position(table@) == Some(r->Ok_0 as int) && r->Ok_0
                    < final(self).tables@.len() && final(self).tables@[r->Ok_0 as int].schema@ == tx.schema_of(table@),
            },
    {
        match self.find(table) {
            Some(i) => {
                assert(self@.tables[i as int] == self.tables@[i as int]@);
                return Ok(i);
            },
            None => {},
        }
        let schema = match st.catalog.table(table) {
            None => {
                return Err(table_not_found(table));
            },
            Some(t) => t.duplicate(),
        };
        proof {
            st.lemma_table(table@);
        }
        let high = match st.high_ids.get(table.as_bytes()) {
            Some(h) => Some(h.clone()),
            None => None,
        };
        let ghost before = *self;
        let t = TxnTable { name: table.to_owned(), schema, high, operations: CowMap::new() };
        self.tables.push(t);
        proof {
            let tx = before@.touching(st, table@)->0;
            assert(t@ =~= tx.tables.last());
            assert(self@.tables =~= before@.tables.push(t@));
            assert(self@ =~= tx);
            let names = txn_names(self@.tables);
            let was = txn_names(before@.tables);
            model::lemma_find(was, table@);
            assert forall|j: int| 0 <= j < was.len() implies names[j] != table@ && names[j] == was[j] by {
                if was[j] == table@ {
                    assert(was.contains(table@));
                }
            }
            assert(names[was.len() as int] == table@);
            model::lemma_find_is(names, table@, was.len() as int);
            assert forall|i: int| 0 <= i < self.tables@.len() implies (#[trigger] self.tables@[i]).operations.wf()
                && state::schema_fits(self.tables@[i].schema@) by {
                if i < before.tables@.len() {
                    assert(self.tables@[i] == before.tables@[i]);
                }
            }
        }
        Ok(self.tables.len() - 1)
    }

    /// Read through the transaction: its own changes first, then the snapshot.
    pub fn get(&self, st: &State, table: &str, id: &str) -> (r: Result<Option<Record>, Error>)
        requires
            self.wf(),
            st.wf(),
        ensures
            match self@.row(st, table@, id@) {
                Ok(None) => r is Ok && r->Ok_0 is None,
                Ok(Some(rec)) => r matches Ok(Some(got)) && got.wf() && got@ == rec,
                Err(e) => r is Err && r->Err_0@ == e,
            },
    {
        match self.find_operation(table, id) {
            Some(op) => match &op.record {
                Some(rec) => {
                    let mut out = rec.duplicate_map();
                    let _ = out.insert(schema::ID_COLUMN.to_owned(), Value::Text(id.to_owned()));
                    Ok(Some(out))
                },
                None => Ok(None),
            },
            None => st.get_at(table, id, self.snapshot),
        }
    }

    /// Stage a change, where the memory for it is allowed.
    fn stage(&mut self, at: usize, id: String, operation: Option<Record>, limit: usize) -> (r: Result<(), Error>)
        requires
            old(self).wf(),
            at < old(self).tables@.len(),
            operation matches Some(rec) ==> rec.wf(),
        ensures
            final(self).wf(),
            staged_outcome(
                old(self)@,
                limit,
                old(self).tables@[at as int].name@,
                id@,
                (Operation { record: operation })@,
                final(self)@,
                crate::error::error_of(r),
            ),
    {
        let ghost before = *self;
        let ghost table = self.tables@[at as int].name@;
        let ghost op = (Operation { record: operation })@;
        proof {
            let names = txn_names(self@.tables);
            assert(names[at as int] == table);
            model::lemma_find(names, table);
            let k = model::find(names, table)->0;
            assert(names.contains(table));
            if k != at {
                assert(names[k] != names[at as int]);
            }
            assert(self@.tables[at as int] == self.tables@[at as int]@);
        }
        let old_bytes: usize = match self.tables[at].operations.get(id.as_str().as_bytes()) {
            Some(was) => {
                proof {
                    lemma_fields(was.record);
                }
                staged_operation_bytes(self.tables[at].name.as_str(), id.as_str(), &was.record)
            },
            None => 0,
        };
        proof {
            lemma_fields(operation);
        }
        let new_bytes: usize = staged_operation_bytes(self.tables[at].name.as_str(), id.as_str(), &operation);
        let projected: usize = self.bytes.saturating_sub(old_bytes).saturating_add(new_bytes);
        assert(projected == self@.projected(table, id@, op));
        if projected > limit {
            let a = decimal_text(projected as u64);
            let b = decimal_text(limit as u64);
            return Err(
                Error::MemoryLimit(
                    "transaction staging needs an estimated ".to_owned().concat(a.as_str()).concat(
                        " bytes, but memory.index_delta_pool_bytes is ",
                    ).concat(b.as_str()).concat("; commit smaller batches"),
                ),
            );
        }
        let _ = self.tables[at].operations.insert(id, Operation { record: operation });
        self.bytes = projected;
        proof {
            let after = before@.changed(table, id@, op);
            assert(self.tables@[at as int]@ =~= after.tables[at as int]);
            assert(self@.tables =~= after.tables) by {
                assert forall|i: int| 0 <= i < after.tables.len() implies self@.tables[i] == #[trigger] after.tables[i] by {
                    if i != at {
                        assert(self.tables@[i] == before.tables@[i]);
                    }
                }
            }
            assert(self@ =~= after);
            assert(txn_names(self@.tables) =~= txn_names(before@.tables));
            assert forall|i: int| 0 <= i < self.tables@.len() implies (#[trigger] self.tables@[i]).operations.wf()
                && state::schema_fits(self.tables@[i].schema@) by {
                if i != at {
                    assert(self.tables@[i] == before.tables@[i]);
                }
            }
        }
        Ok(())
    }

    /// Insert a record under an id.
    pub fn insert_as(&mut self, st: &State, limit: usize, table: &str, id: &str, rec: Record) -> (r: Result<(), Error>)
        requires
            old(self).wf(),
            st.wf(),
            rec.wf(),
        ensures
            final(self).wf(),
            insert_outcome(old(self)@, st, limit, table@, id@, rec@, final(self)@, crate::error::error_of(r)),
    {
        let at = match self.schema(st, table) {
            Ok(i) => i,
            Err(e) => {
                return Err(e);
            },
        };
        let ghost tx = self@;
        let full = match normalize_record(&self.tables[at].schema, rec) {
            Ok(full) => full,
            Err(e) => {
                return Err(e);
            },
        };
        let taken = match self.find_operation(table, id) {
            Some(op) => op.record.is_some(),
            None => {
                assert(self@.tables[at as int] == self.tables@[at as int]@);
                let past = match &self.tables[at].high {
                    Some(h) => match bytes::place(h.as_str().as_bytes(), id.as_bytes()) {
                        Place::Before => true,
                        _ => false,
                    },
                    None => true,
                };
                assert(past == above(self@.tables[at as int].high, id@));
                !past && st.exists_at(table, id, self.snapshot)
            },
        };
        if taken {
            return Err(Error::DuplicateId { table: table.to_owned(), id: id.to_owned() });
        }
        proof {
            assert(self@.tables[at as int] == self.tables@[at as int]@);
            model::lemma_find(txn_names(self@.tables), table@);
            assert(txn_names(self@.tables)[at as int] == self.tables@[at as int].name@);
        }
        self.stage(at, id.to_owned(), Some(full), limit)
    }

    /// Insert a record under the id that it asks for, or a new one.
    pub fn insert(&mut self, st: &State, ids: &mut IdSource, limit: usize, table: &str, rec: Record) -> (r: Result<String, Error>)
        requires
            old(self).wf(),
            st.wf(),
            rec.wf(),
        ensures
            final(self).wf(),
            match asked_id(rec@) {
                Err(e) => r is Err && r->Err_0@ == e && final(self)@ == old(self)@ && final(ids).previous == old(ids).previous,
                Ok(Some(id)) => final(ids).previous == ids::noticed(old(ids).previous, id) && (r matches Ok(got) ==> got@ == id)
                    && insert_outcome(old(self)@, st, limit, table@, id, rec@, final(self)@, crate::error::error_of(r)),
                Ok(None) => {
                    ||| final(ids).previous == old(ids).previous && ids::incremented(old(ids).previous) is None && final(self)@
                        == old(self)@ && r is Err && r->Err_0@ == ErrorView::InvalidArgument(
                        "cannot generate id: ULID overflow"@,
                    )
                    ||| final(ids).previous > old(ids).previous && (r matches Ok(got) ==> got@ == ids::ulid_text(
                        final(ids).previous,
                    )) && insert_outcome(
                        old(self)@,
                        st,
                        limit,
                        table@,
                        ids::ulid_text(final(ids).previous),
                        rec@,
                        final(self)@,
                        crate::error::error_of(r),
                    )
                },
            },
    {
        let id = match choose_id(ids, &rec) {
            Ok(id) => id,
            Err(e) => {
                return Err(e);
            },
        };
        match self.insert_as(st, limit, table, id.as_str(), rec) {
            Ok(_) => Ok(id),
            Err(e) => Err(e),
        }
    }

    /// Put the fields of a patch over a record.
    pub fn update(&mut self, st: &State, limit: usize, table: &str, id: &str, patch: Record) -> (r: Result<(), Error>)
        requires
            old(self).wf(),
            st.wf(),
            patch.wf(),
        ensures
            final(self).wf(),
            update_outcome(old(self)@, st, limit, table@, id@, patch@, final(self)@, crate::error::error_of(r)),
    {
        if patch.contains_key(schema::ID_COLUMN.as_bytes()) {
            return Err(invalid("the primary key cannot be updated"));
        }
        let at = match self.schema(st, table) {
            Ok(i) => i,
            Err(e) => {
                return Err(e);
            },
        };
        let mut current = match self.get(st, table, id) {
            Err(e) => {
                return Err(e);
            },
            Ok(None) => {
                return Err(Error::RecordNotFound { table: table.to_owned(), id: id.to_owned() });
            },
            Ok(Some(rec)) => rec,
        };
        let _ = current.remove(schema::ID_COLUMN.as_bytes());
        let new = match patch_record(&self.tables[at].schema, current, &patch) {
            Ok(new) => new,
            Err(e) => {
                return Err(e);
            },
        };
        proof {
            model::lemma_find(txn_names(self@.tables), table@);
            assert(txn_names(self@.tables)[at as int] == self.tables@[at as int].name@);
        }
        self.stage(at, id.to_owned(), Some(new), limit)
    }

    /// Delete a record. It says whether there was one.
    pub fn delete(&mut self, st: &State, limit: usize, table: &str, id: &str) -> (r: Result<bool, Error>)
        requires
            old(self).wf(),
            st.wf(),
        ensures
            final(self).wf(),
            delete_outcome(old(self)@, st, limit, table@, id@, final(self)@, r == Ok::<bool, Error>(true), crate::error::error_of(r)),
    {
        let at = match self.schema(st, table) {
            Ok(i) => i,
            Err(e) => {
                return Err(e);
            },
        };
        let found = match self.find_operation(table, id) {
            Some(op) => op.record.is_some(),
            None => st.exists_at(table, id, self.snapshot),
        };
        if !found {
            return Ok(false);
        }
        proof {
            model::lemma_find(txn_names(self@.tables), table@);
            assert(txn_names(self@.tables)[at as int] == self.tables@[at as int].name@);
        }
        match self.stage(at, id.to_owned(), None, limit) {
            Ok(_) => Ok(true),
            Err(e) => Err(e),
        }
    }
}

proof fn lemma_fields(op: Option<Record>)
    requires
        op matches Some(rec) ==> rec.wf(),
    ensures
        record::operation_fields(op) == (match (Operation { record: op })@ {
            Some(rec) => Some(reads::fields_of(rec)),
            None => None,
        }),
{
    match op {
        Some(rec) => {
            rec.lemma_wf();
            pairs::lemma_sorted_unique(rec.pairs(), reads::fields_of(rec@));
        },
        None => {},
    }
}

/// Put the fields of a patch over a record, in the order of their names, each
/// checked against its column.
fn patch_record(schema: &TableSchema, rec: Record, patch: &Record) -> (r: Result<Record, Error>)
    requires
        rec.wf(),
        patch.wf(),
    ensures
        match patched(schema@.columns, rec@, reads::fields_of(patch@)) {
            Ok(out) => r is Ok && r->Ok_0.wf() && r->Ok_0@ == out,
            Err(e) => r is Err && r->Err_0@ == e,
        },
{
    let ghost columns = schema@.columns;
    let ghost start = rec@;
    let ghost s = patch.pairs();
    proof {
        patch.lemma_wf();
        pairs::lemma_sorted_unique(s, reads::fields_of(patch@));
    }
    let fields = patch.iter();
    let mut out = rec;
    let mut i: usize = 0;
    assert(s.subrange(0, 0) =~= Seq::<(Seq<u8>, ValueView)>::empty());
    while i < fields.len()
        invariant
            i <= fields@.len() == s.len(),
            cow::entry_pairs(fields@) == s,
            cow::entries_valid(fields@),
            s == reads::fields_of(patch@),
            columns == schema@.columns,
            start == rec@,
            out.wf(),
            patched(columns, start, s.subrange(0, i as int)) == Ok::<RecordView, ErrorView>(out@),
        decreases fields@.len() - i,
    {
        let (name, v) = fields[i];
        proof {
            let t = s.subrange(0, i + 1);
            assert(t.drop_last() =~= s.subrange(0, i as int));
            assert(cow::entry_pairs(fields@)[i as int] == (name.rank(), v@));
            assert(t.last() == (name.rank(), v@));
            encode_utf8_decode_utf8(name@);
            lemma_patched_prefix(columns, start, s, i + 1);
        }
        match schema.column(name.as_str()) {
            None => {
                return Err(Error::SchemaViolation("unknown column '".to_owned().concat(name.as_str()).concat("'")));
            },
            Some(col) => {
                match check_value(col, v) {
                    Err(e) => {
                        return Err(e);
                    },
                    Ok(_) => {},
                }
            },
        }
        let _ = out.insert(name.clone(), v.duplicate());
        i = i + 1;
    }
    assert(s.subrange(0, i as int) =~= s);
    Ok(out)
}

/// An error in the first fields is the error of all.
proof fn lemma_patched_prefix(columns: Seq<ColumnView>, rec: RecordView, patch: Seq<(Seq<u8>, ValueView)>, n: int)
    requires
        0 <= n <= patch.len(),
    ensures
        patched(columns, rec, patch.subrange(0, n)) matches Err(e) ==> patched(columns, rec, patch) == Err::<RecordView, ErrorView>(e),
    decreases patch.len() - n,
{
    if n < patch.len() {
        lemma_patched_prefix(columns, rec, patch, n + 1);
        assert(patch.subrange(0, n + 1).drop_last() =~= patch.subrange(0, n));
    } else {
        assert(patch.subrange(0, n) =~= patch);
    }
}

// ---- Handing over to the commit ---------------------------------------------

/// The changes of a table in the order of their ids.
pub open spec fn is_handed(t: TxnTableView, out: StagedTable) -> bool {
    &&& out.name@ == t.name
    &&& out.schema@ == t.schema
    &&& pairs::to_map(handed_pairs(out.operations@)) == t.operations
    &&& pairs::sorted(handed_pairs(out.operations@))
    &&& forall|j: int| 0 <= j < out.operations@.len() ==> plain_change(t.schema, #[trigger] out.operations@[j])
}

pub open spec fn handed_pairs(ops: Seq<StagedChange>) -> Seq<(Seq<u8>, Option<RecordView>)> {
    Seq::new(ops.len(), |j: int| (encode_utf8(ops[j].id@), (Operation { record: ops[j].operation })@))
}

/// A change of which nothing is out of line, and which is not replayed.
pub open spec fn plain_change(t: TableView, c: StagedChange) -> bool {
    &&& c.replay is None
    &&& c.token_bytes == 0
    &&& c.external@ == Seq::new(t.columns.len(), |k: int| None::<BlobRef>)
}

fn no_references(n: usize) -> (r: Vec<Option<BlobRef>>)
    ensures
        r@ == Seq::new(n as nat, |k: int| None::<BlobRef>),
{
    let mut out: Vec<Option<BlobRef>> = Vec::new();
    while out.len() < n
        invariant
            out@.len() <= n,
            out@ =~= Seq::new(out@.len(), |k: int| None::<BlobRef>),
        decreases n - out@.len(),
    {
        out.push(None);
    }
    out
}

fn hand_over(t: &TxnTable) -> (r: StagedTable)
    requires
        t.operations.wf(),
        state::schema_fits(t.schema@),
    ensures
        r.wf(),
        is_handed(t@, r),
{
    let entries = t.operations.iter();
    let ghost s = t.operations.pairs();
    proof {
        t.operations.lemma_wf();
    }
    let mut out: Vec<StagedChange> = Vec::new();
    let mut i: usize = 0;
    while i < entries.len()
        invariant
            i <= entries@.len() == s.len(),
            cow::entry_pairs(entries@) == s,
            cow::entries_valid(entries@),
            out@.len() == i,
            handed_pairs(out@) =~= s.subrange(0, i as int),
            forall|j: int| 0 <= j < out@.len() ==> plain_change(t.schema@, #[trigger] out@[j]),
            forall|j: int| 0 <= j < out@.len() ==> (#[trigger] out@[j]).wf(),
        decreases entries@.len() - i,
    {
        let (id, op) = entries[i];
        let ghost before = out@;
        let copy = op.duplicate();
        assert(cow::entry_pairs(entries@)[i as int] == (id.rank(), op@));
        let change = StagedChange {
            id: id.clone(),
            operation: copy.record,
            external: no_references(t.schema.columns.len()),
            replay: None,
            token_bytes: 0,
        };
        out.push(change);
        proof {
            assert(entries@[i as int].1.valid());
            assert(handed_pairs(out@) =~= handed_pairs(before).push((id.rank(), op@)));
            assert(s.subrange(0, i + 1) =~= s.subrange(0, i as int).push(s[i as int]));
        }
        i = i + 1;
    }
    assert(s.subrange(0, i as int) =~= s);
    proof {
        assert forall|a: int, b: int| 0 <= a < b < out@.len() implies bytes::lex_lt(
            encode_utf8((#[trigger] out@[a]).id@),
            encode_utf8((#[trigger] out@[b]).id@),
        ) by {
            assert(handed_pairs(out@)[a].0 == s[a].0 && handed_pairs(out@)[b].0 == s[b].0);
        }
    }
    StagedTable { name: t.name.clone(), schema: t.schema.duplicate(), operations: out }
}

impl Txn {
    /// The changes as the commit takes them: each table with its changes in the
    /// order of their ids. References of blobs that are written out of line, and
    /// what words charge, are filled in by who writes and counts them.
    pub fn staged_tables(&self) -> (r: Vec<StagedTable>)
        requires
            self.wf(),
        ensures
            crate::prepare::all_wf(r@),
            r@.len() == self@.tables.len(),
            forall|i: int| 0 <= i < r@.len() ==> is_handed(self@.tables[i], #[trigger] r@[i]),
    {
        let mut out: Vec<StagedTable> = Vec::new();
        let mut i: usize = 0;
        while i < self.tables.len()
            invariant
                self.wf(),
                i <= self.tables@.len(),
                out@.len() == i,
                crate::prepare::all_wf(out@),
                forall|j: int| 0 <= j < i ==> is_handed(self@.tables[j], #[trigger] out@[j]),
            decreases self.tables@.len() - i,
        {
            assert(self@.tables[i as int] == self.tables@[i as int]@);
            out.push(hand_over(&self.tables[i]));
            proof {
                let names = txn_names(self@.tables);
                assert forall|a: int, b: int| 0 <= a < out@.len() && 0 <= b < out@.len() && (#[trigger] out@[a]).name@ == (
                #[trigger] out@[b]).name@ implies a == b by {
                    assert(is_handed(self@.tables[a], out@[a]) && is_handed(self@.tables[b], out@[b]));
                    assert(names[a] == out@[a].name@ && names[b] == out@[b].name@);
                }
            }
            i = i + 1;
        }
        out
    }
}

// ---- Single operations ------------------------------------------------------

/// What follows an attempt to commit a single operation.
pub enum Attempt {
    Done(u64),
    Again,
    Failed(Error),
}

/// How often a single operation is tried.
pub const ATTEMPTS: u32 = 3;

/// A single operation that met another writer is tried again, a few times.
pub fn after_attempt(attempt: u32, outcome: Result<u64, Error>) -> (r: Attempt)
    ensures
        match outcome {
            Ok(v) => r == Attempt::Done(v),
            Err(Error::Conflict(m)) => if attempt + 1 < ATTEMPTS {
                r is Again
            } else {
                r == Attempt::Failed(Error::Conflict(m))
            },
            Err(e) => r == Attempt::Failed(e),
        },
{
    match outcome {
        Ok(v) => Attempt::Done(v),
        Err(Error::Conflict(m)) => {
            if attempt < ATTEMPTS - 1 {
                Attempt::Again
            } else {
                Attempt::Failed(Error::Conflict(m))
            }
        },
        Err(e) => Attempt::Failed(e),
    }
}

// ---- Laws -------------------------------------------------------------------

/// A transaction reads its own writes: after a change is staged, the record is
/// what the change made of it, and every other record is as it was.
pub proof fn lemma_own_writes(
    before: TxnView,
    limit: usize,
    table: Seq<char>,
    id: Seq<char>,
    op: Option<RecordView>,
    after: TxnView,
    other_table: Seq<char>,
    other: Seq<char>,
)
    requires
        before.position(table) is Some,
        staged_outcome(before, limit, table, id, op, after, None),
    ensures
        after.operation(table, id) == Some(op),
        (other_table, other) != (table, id) ==> after.operation(other_table, other) == before.operation(other_table, other),
{
    let i = before.position(table)->0;
    model::lemma_find(txn_names(before.tables), table);
    assert(txn_names(after.tables) =~= txn_names(before.tables));
    model::lemma_find(txn_names(before.tables), other_table);
    if (other_table, other) != (table, id) && before.position(other_table) == Some(i) {
        assert(txn_names(before.tables)[i] == other_table);
        assert(other != id);
        if encode_utf8(other) == encode_utf8(id) {
            bytes::lemma_utf8_injective(other, id);
        }
    }
}

/// What others commit after a transaction began changes nothing of what it
/// reads.
pub proof fn lemma_reads_snapshot(
    tx: TxnView,
    before: &State,
    after: &State,
    staged: Seq<StagedView>,
    p: Seq<Seq<PreviousView>>,
    version: u64,
    table: Seq<char>,
    id: Seq<char>,
)
    requires
        crate::publish::published(before, after, staged, p, version),
        tx.snapshot < version,
    ensures
        tx.row(after, table, id) == tx.row(before, table, id),
{
    crate::commit_laws::lemma_snapshots_stable(before, after, staged, p, version, table, id, tx.snapshot);
}

/// The shortcut of an insertion is sound: when the table was first touched, no
/// record stood above its greatest id.
pub proof fn lemma_above_is_free(st: &State, table: Seq<char>, id: Seq<char>, max: u64)
    requires
        st.inv(),
        st.table_view(table) is Some,
        above(
            if st.high_ids@.contains_key(encode_utf8(table)) {
                Some(st.high_ids@[encode_utf8(table)])
            } else {
                None
            },
            id,
        ),
    ensures
        !st.shows(table, encode_utf8(id), max),
{
    assert(st.above_high(table, encode_utf8(id)));
    if st.versions(table, encode_utf8(id)) is Ok {
        let s = st.versions(table, encode_utf8(id))->Ok_0;
        crate::primary::lemma_newest_of(s, max);
        crate::primary::lemma_newest_of(s, u64::MAX);
    }
}

} // verus!
