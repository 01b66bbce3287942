//! What a transaction reads after it inserts, updates or deletes a record, field
//! by field.

use crate::bytes;
use crate::error::ErrorView;
use crate::model;
use crate::pairs;
use crate::primary;
use crate::reads;
use crate::record::{self, Record, RecordView};
use crate::schema::{self, ColumnView};
use crate::state::State;
use crate::txn::{self, TxnView};
use crate::value::{ColumnType, ValueView};
use vstd::prelude::*;
use vstd::utf8::*;

verus! {

/// The value may stand in the column: null where nulls are allowed, else a value
/// of the column's type and, for a vector, of its dimension.
pub open spec fn fits(c: ColumnView, v: ValueView) -> bool {
    match v {
        ValueView::Null => c.nullable,
        ValueView::Bool(_) => c.ty == ColumnType::Bool,
        ValueView::Int64(_) => c.ty == ColumnType::Int64,
        ValueView::Float64(_) => c.ty == ColumnType::Float64,
        ValueView::Text(_) => c.ty == ColumnType::Text,
        ValueView::Blob(_) => c.ty == ColumnType::Blob,
        ValueView::Timestamp(_) => c.ty == ColumnType::Timestamp,
        ValueView::Json(_) => c.ty == ColumnType::Json,
        ValueView::Vector(w) => c.ty == ColumnType::Vector && (c.dim is None || c.dim->0 == w.len()),
        ValueView::Date(_) => c.ty == ColumnType::Date,
        ValueView::Time(_) => c.ty == ColumnType::Time,
    }
}

/// A value is refused exactly where it may not stand in the column.
pub proof fn lemma_value_fits(c: ColumnView, v: ValueView)
    ensures
        record::value_error(c, v) is None <==> fits(c, v),
{
}

/// The table has a column of the name in which the value may stand.
pub open spec fn column_takes(columns: Seq<ColumnView>, name: Seq<u8>, v: ValueView) -> bool {
    exists|i: int| 0 <= i < columns.len() && encode_utf8((#[trigger] columns[i]).name) == name && fits(columns[i], v)
}

// ---- What touching a table changes ------------------------------------------

/// Touching a table changes nothing that a transaction reads or does.
pub proof fn lemma_touched(before: TxnView, st: &State, table: Seq<char>, other: Seq<char>, id: Seq<char>)
    ensures
        before.touching(st, table) matches Some(tx) ==> {
            &&& tx.position(table) is Some
            &&& tx.operation(other, id) == before.operation(other, id)
            &&& tx.row(st, other, id) == before.row(st, other, id)
            &&& tx.has(st, other, id) == before.has(st, other, id)
            &&& tx.snapshot == before.snapshot
        },
{
    if let Some(tx) = before.touching(st, table) {
        let names = txn::txn_names(before.tables);
        let more = txn::txn_names(tx.tables);
        model::lemma_find(names, table);
        model::lemma_find(names, other);
        model::lemma_find(more, table);
        model::lemma_find(more, other);
        if before.position(table) is None {
            assert(more =~= names.push(table));
            assert(more[names.len() as int] == table);
            if other == table {
                assert forall|j: int| 0 <= j < names.len() implies more[j] != table by {
                    if names[j] == table {
                        assert(names.contains(table));
                    }
                }
                model::lemma_find_is(more, table, names.len() as int);
            } else {
                match model::find(names, other) {
                    Some(i) => {
                        assert forall|j: int| 0 <= j < i implies more[j] != other by {
                            assert(names[j] != other);
                        }
                        model::lemma_find_is(more, other, i);
                    },
                    None => {
                        assert forall|j: int| 0 <= j < more.len() implies more[j] != other by {
                            if j < names.len() && names[j] == other {
                                assert(names.contains(other));
                            }
                        }
                        model::lemma_find_none(more, other);
                    },
                }
            }
        }
    }
}

proof fn lemma_staged(tx: TxnView, table: Seq<char>, id: Seq<char>, op: Option<RecordView>, other: Seq<char>, other_id: Seq<char>)
    requires
        tx.position(table) is Some,
    ensures
        tx.changed(table, id, op).operation(other, other_id) == (if other == table && other_id == id {
            Some(op)
        } else {
            tx.operation(other, other_id)
        }),
        tx.changed(table, id, op).snapshot == tx.snapshot,
{
    let after = tx.changed(table, id, op);
    let names = txn::txn_names(tx.tables);
    model::lemma_find(names, table);
    model::lemma_find(names, other);
    assert(txn::txn_names(after.tables) =~= names);
    if other_id != id {
        bytes::lemma_utf8_injective(other_id, id);
    }
    if other != table {
        assert(after.position(other) == tx.position(other));
    }
}

// ---- Updates ----------------------------------------------------------------

/// After an update that was accepted, the record read has under every name of the
/// patch exactly the patch's value, null or not, and under every other name what
/// it had before; every other record is read as before.
pub proof fn lemma_update_reads_patch(
    before: TxnView,
    st: &State,
    limit: usize,
    table: Seq<char>,
    id: Seq<char>,
    patch: Record,
    after: TxnView,
    other: Seq<char>,
    other_id: Seq<char>,
)
    requires
        patch.wf(),
        txn::update_outcome(before, st, limit, table, id, patch@, after, None),
    ensures
        before.row(st, table, id) matches Ok(Some(old)) && after.row(st, table, id) matches Ok(Some(new)) && forall|name: Seq<u8>|
            name != record::id_key() ==> if patch@.contains_key(name) {
                #[trigger] new.contains_key(name) && new[name] == patch@[name]
            } else {
                new.contains_key(name) == old.contains_key(name) && (old.contains_key(name) ==> new[name] == old[name])
            },
        after.row(st, table, id)->Ok_0->0.contains_key(record::id_key()),
        after.row(st, table, id)->Ok_0->0[record::id_key()] == ValueView::Text(id),
        !patch@.contains_key(record::id_key()),
        other != table || other_id != id ==> after.row(st, other, other_id) == before.row(st, other, other_id),
{
    let tx = before.touching(st, table)->0;
    lemma_touched(before, st, table, table, id);
    lemma_touched(before, st, table, other, other_id);
    let old = tx.row(st, table, id)->Ok_0->0;
    let start = old.remove(record::id_key());
    let s = reads::fields_of(patch@);
    lemma_fields(patch);
    let out = txn::patched(tx.schema_of(table).columns, start, s)->Ok_0;
    lemma_staged(tx, table, id, Some(out), table, id);
    lemma_staged(tx, table, id, Some(out), other, other_id);
    let new = after.row(st, table, id)->Ok_0->0;
    assert(new == out.insert(record::id_key(), ValueView::Text(id)));
    assert forall|name: Seq<u8>| name != record::id_key() implies if patch@.contains_key(name) {
        #[trigger] new.contains_key(name) && new[name] == patch@[name]
    } else {
        new.contains_key(name) == old.contains_key(name) && (old.contains_key(name) ==> new[name] == old[name])
    } by {
        lemma_patched_at(tx.schema_of(table).columns, start, s, name);
        if patch@.contains_key(name) {
            assert(pairs::has_key(s, name));
            let i = pairs::index_of(s, name);
            assert(s[i].0 == name);
            pairs::lemma_to_map_at(s, i);
        } else {
            assert forall|i: int| 0 <= i < s.len() implies (#[trigger] s[i]).0 != name by {
                pairs::lemma_to_map_at(s, i);
            }
        }
    }
}

proof fn lemma_fields(rec: Record)
    requires
        rec.wf(),
    ensures
        pairs::sorted(reads::fields_of(rec@)),
        pairs::to_map(reads::fields_of(rec@)) == rec@,
{
    rec.lemma_wf();
    assert(pairs::sorted(rec.pairs()) && pairs::to_map(rec.pairs()) == rec@);
}

proof fn lemma_patched_at(columns: Seq<ColumnView>, rec: RecordView, s: Seq<(Seq<u8>, ValueView)>, name: Seq<u8>)
    requires
        txn::patched(columns, rec, s) is Ok,
        pairs::sorted(s),
    ensures
        ({
            let out = txn::patched(columns, rec, s)->Ok_0;
            &&& forall|i: int| 0 <= i < s.len() && (#[trigger] s[i]).0 == name ==> out.contains_key(name) && out[name] == s[i].1
            &&& (forall|i: int| 0 <= i < s.len() ==> (#[trigger] s[i]).0 != name) ==> out.contains_key(name) == rec.contains_key(name) && (
            rec.contains_key(name) ==> out[name] == rec[name])
        }),
    decreases s.len(),
{
    if s.len() > 0 {
        let t = s.drop_last();
        assert(pairs::sorted(t)) by {
            assert forall|i: int, j: int| 0 <= i < j < t.len() implies bytes::lex_lt(#[trigger] t[i].0, #[trigger] t[j].0) by {
                assert(bytes::lex_lt(s[i].0, s[j].0));
            }
        }
        lemma_patched_at(columns, rec, t, name);
        let out = txn::patched(columns, rec, s)->Ok_0;
        let n = s.len() - 1;
        assert forall|i: int| 0 <= i < s.len() && (#[trigger] s[i]).0 == name implies out.contains_key(name) && out[name] == s[i].1 by {
            if i < n {
                assert(t[i] == s[i]);
                if s[n].0 == name {
                    pairs::lemma_key_unique(s, i, n);
                }
            }
        }
        if forall|i: int| 0 <= i < s.len() ==> (#[trigger] s[i]).0 != name {
            assert(s[n].0 != name);
            assert forall|i: int| 0 <= i < t.len() implies (#[trigger] t[i]).0 != name by {
                assert(s[i].0 != name);
            }
        }
    }
}

/// An update is accepted only where every name of the patch is a column of the
/// table in which its value may stand; and where the record is there and every
/// name is such a column, only the memory of the transaction can refuse it.
pub proof fn lemma_update_checked(
    before: TxnView,
    st: &State,
    limit: usize,
    table: Seq<char>,
    id: Seq<char>,
    patch: Record,
    after: TxnView,
    error: Option<ErrorView>,
)
    requires
        patch.wf(),
        before.position(table) is Some || st.table_view(table) is Some,
        txn::update_outcome(before, st, limit, table, id, patch@, after, error),
        forall|name: Seq<u8>| #[trigger] patch@.contains_key(name) ==> valid_utf8(name),
        forall|i: int, j: int|
            0 <= i < j < before.touching(st, table)->0.schema_of(table).columns.len() ==> (#[trigger] before.touching(st, table)->0.schema_of(table).columns[i]).name
                != (#[trigger] before.touching(st, table)->0.schema_of(table).columns[j]).name,
    ensures
        ({
            let columns = before.touching(st, table)->0.schema_of(table).columns;
            let all_fit = forall|name: Seq<u8>| #[trigger] patch@.contains_key(name) ==> column_takes(columns, name, patch@[name]);
            &&& error is None ==> all_fit && before.row(st, table, id) is Ok && before.row(st, table, id)->Ok_0 is Some
            &&& all_fit && !patch@.contains_key(record::id_key()) && before.row(st, table, id) is Ok && before.row(st, table, id)->Ok_0 is Some
                ==> error is None || error->0 is MemoryLimit
            &&& before.row(st, table, id) == Ok::<Option<RecordView>, ErrorView>(None) && !patch@.contains_key(record::id_key()) ==> error == Some(
                ErrorView::RecordNotFound { table, id },
            )
            &&& patch@.contains_key(record::id_key()) ==> error is Some
        }),
{
    let tx = before.touching(st, table)->0;
    let columns = tx.schema_of(table).columns;
    lemma_touched(before, st, table, table, id);
    let s = reads::fields_of(patch@);
    lemma_fields(patch);
    assert forall|i: int| 0 <= i < s.len() implies valid_utf8((#[trigger] s[i]).0) && patch@.contains_key(s[i].0) && patch@[s[i].0]
        == s[i].1 by {
        pairs::lemma_to_map_at(s, i);
    }
    if let Ok(Some(old)) = tx.row(st, table, id) {
        let start = old.remove(record::id_key());
        lemma_patched_takes(columns, start, s);
        if forall|name: Seq<u8>| #[trigger] patch@.contains_key(name) ==> column_takes(columns, name, patch@[name]) {
            assert forall|i: int| 0 <= i < s.len() implies column_takes(columns, (#[trigger] s[i]).0, s[i].1) by {
                assert(patch@.contains_key(s[i].0));
            }
        }
        if txn::patched(columns, start, s) is Ok {
            assert forall|name: Seq<u8>| #[trigger] patch@.contains_key(name) implies column_takes(columns, name, patch@[name]) by {
                assert(pairs::has_key(s, name));
                let i = pairs::index_of(s, name);
                pairs::lemma_to_map_at(s, i);
            }
        }
    }
}

proof fn lemma_column_found(columns: Seq<ColumnView>, name: Seq<u8>, v: ValueView)
    requires
        valid_utf8(name),
        forall|i: int, j: int| 0 <= i < j < columns.len() ==> (#[trigger] columns[i]).name != (#[trigger] columns[j]).name,
    ensures
        match schema::column_of(columns, decode_utf8(name)) {
            None => !column_takes(columns, name, v),
            Some(c) => column_takes(columns, name, v) <==> record::value_error(c, v) is None,
        },
{
    let text = decode_utf8(name);
    decode_utf8_encode_utf8(name);
    let names = schema::column_names(columns);
    model::lemma_find(names, text);
    if column_takes(columns, name, v) {
        let i = choose|i: int| 0 <= i < columns.len() && encode_utf8((#[trigger] columns[i]).name) == name && fits(columns[i], v);
        bytes::lemma_utf8_injective(columns[i].name, text);
        assert(names[i] == text);
        assert(names.contains(text));
        let k = model::find(names, text)->0;
        if k < i {
            assert(columns[k].name != columns[i].name);
        } else if i < k {
            assert(columns[i].name != columns[k].name);
        }
    }
    if let Some(k) = model::find(names, text) {
        assert(names[k] == text);
        assert(encode_utf8(columns[k].name) == name);
    }
}

proof fn lemma_patched_takes(columns: Seq<ColumnView>, rec: RecordView, s: Seq<(Seq<u8>, ValueView)>)
    requires
        forall|i: int| 0 <= i < s.len() ==> valid_utf8((#[trigger] s[i]).0),
        forall|i: int, j: int| 0 <= i < j < columns.len() ==> (#[trigger] columns[i]).name != (#[trigger] columns[j]).name,
    ensures
        txn::patched(columns, rec, s) is Ok <==> forall|i: int| 0 <= i < s.len() ==> column_takes(columns, (#[trigger] s[i]).0, s[i].1),
    decreases s.len(),
{
    if s.len() > 0 {
        let t = s.drop_last();
        let n = s.len() - 1;
        assert forall|i: int| 0 <= i < t.len() implies valid_utf8((#[trigger] t[i]).0) by {
            assert(valid_utf8(s[i].0));
        }
        lemma_patched_takes(columns, rec, t);
        assert(valid_utf8(s[n].0));
        lemma_column_found(columns, s[n].0, s[n].1);
        if txn::patched(columns, rec, s) is Ok {
            assert forall|i: int| 0 <= i < s.len() implies column_takes(columns, (#[trigger] s[i]).0, s[i].1) by {
                if i < n {
                    assert(t[i] == s[i]);
                }
            }
        }
        if forall|i: int| 0 <= i < s.len() ==> column_takes(columns, (#[trigger] s[i]).0, s[i].1) {
            assert forall|i: int| 0 <= i < t.len() implies column_takes(columns, (#[trigger] t[i]).0, t[i].1) by {
                assert(column_takes(columns, s[i].0, s[i].1));
            }
            assert(column_takes(columns, s[n].0, s[n].1));
        }
    }
}

// ---- Insertions -------------------------------------------------------------

/// After an insertion that was accepted, the record read has under every column
/// the value that was given, or else the column's default, or else null, and that
/// value may stand in the column; it has the id under the primary key and nothing
/// else; every name that was given is a column or the primary key; and every other
/// record is read as before.
pub proof fn lemma_insert_reads_record(
    before: TxnView,
    st: &State,
    limit: usize,
    table: Seq<char>,
    id: Seq<char>,
    rec: RecordView,
    after: TxnView,
    other: Seq<char>,
    other_id: Seq<char>,
)
    requires
        txn::insert_outcome(before, st, limit, table, id, rec, after, None),
        forall|i: int, j: int|
            0 <= i < j < before.touching(st, table)->0.schema_of(table).columns.len() ==> (#[trigger] before.touching(st, table)->0.schema_of(table).columns[i]).name
                != (#[trigger] before.touching(st, table)->0.schema_of(table).columns[j]).name,
        forall|i: int|
            0 <= i < before.touching(st, table)->0.schema_of(table).columns.len() ==> encode_utf8(
                (#[trigger] before.touching(st, table)->0.schema_of(table).columns[i]).name,
            ) != record::id_key(),
    ensures
        ({
            let columns = before.touching(st, table)->0.schema_of(table).columns;
            let new = after.row(st, table, id)->Ok_0->0;
            &&& after.row(st, table, id) is Ok && after.row(st, table, id)->Ok_0 is Some
            &&& forall|i: int| 0 <= i < columns.len() ==> {
                let c = #[trigger] columns[i];
                let name = encode_utf8(c.name);
                &&& new.contains_key(name)
                &&& new[name] == (if rec.contains_key(name) {
                    rec[name]
                } else if c.default is Some {
                    c.default->0
                } else {
                    ValueView::Null
                })
                &&& rec.contains_key(name) ==> fits(c, rec[name])
                &&& !c.nullable ==> !(new[name] is Null)
            }
            &&& new.contains_key(record::id_key()) && new[record::id_key()] == ValueView::Text(id)
            &&& forall|name: Seq<u8>| #[trigger] new.contains_key(name) ==> name == record::id_key() || record::is_column(columns, name)
            &&& forall|name: Seq<u8>| #[trigger] rec.contains_key(name) ==> name == record::id_key() || record::is_column(columns, name)
            &&& other != table || other_id != id ==> after.row(st, other, other_id) == before.row(st, other, other_id)
            &&& !(before.operation(table, id) matches Some(Some(_)))
        }),
{
    let tx = before.touching(st, table)->0;
    lemma_touched(before, st, table, table, id);
    lemma_touched(before, st, table, other, other_id);
    let columns = tx.schema_of(table).columns;
    let body = rec.remove(record::id_key());
    let full = record::with_columns(columns, body)->Ok_0;
    lemma_staged(tx, table, id, Some(full), table, id);
    lemma_staged(tx, table, id, Some(full), other, other_id);
    lemma_filled(columns, body);
    let new = after.row(st, table, id)->Ok_0->0;
    assert(new == full.insert(record::id_key(), ValueView::Text(id)));
    assert forall|i: int| 0 <= i < columns.len() implies {
        let c = #[trigger] columns[i];
        let name = encode_utf8(c.name);
        &&& new.contains_key(name)
        &&& new[name] == (if rec.contains_key(name) {
            rec[name]
        } else if c.default is Some {
            c.default->0
        } else {
            ValueView::Null
        })
        &&& rec.contains_key(name) ==> fits(c, rec[name])
        &&& !c.nullable ==> !(new[name] is Null)
    } by {
        let name = encode_utf8(columns[i].name);
        assert(name != record::id_key());
        assert(full.contains_key(name));
        assert(body.contains_key(name) == rec.contains_key(name));
    }
    assert forall|name: Seq<u8>| #[trigger] rec.contains_key(name) implies name == record::id_key() || record::is_column(columns, name) by {
        if name != record::id_key() {
            assert(body.contains_key(name));
        }
    }
    assert forall|name: Seq<u8>| #[trigger] new.contains_key(name) implies name == record::id_key() || record::is_column(columns, name) by {
        if name != record::id_key() {
            assert(full.contains_key(name));
            if body.contains_key(name) {
                assert(record::is_column(columns, name));
            }
        }
    }
}

/// A record that is completed has every value that was given and, in the other
/// columns, the defaults or null; and no value that its column refuses was given.
pub proof fn lemma_filled(columns: Seq<ColumnView>, body: RecordView)
    requires
        record::with_columns(columns, body) is Ok,
        forall|i: int, j: int| 0 <= i < j < columns.len() ==> (#[trigger] columns[i]).name != (#[trigger] columns[j]).name,
    ensures
        ({
            let full = record::with_columns(columns, body)->Ok_0;
            &&& forall|i: int| 0 <= i < columns.len() ==> {
                let c = #[trigger] columns[i];
                let name = encode_utf8(c.name);
                &&& full.contains_key(name)
                &&& full[name] == (if body.contains_key(name) {
                    body[name]
                } else if c.default is Some {
                    c.default->0
                } else {
                    ValueView::Null
                })
                &&& body.contains_key(name) ==> fits(c, body[name])
                &&& !c.nullable ==> !(full[name] is Null)
            }
            &&& forall|name: Seq<u8>| #[trigger] full.contains_key(name) ==> body.contains_key(name) || record::is_column(columns, name)
            &&& forall|name: Seq<u8>| #[trigger] body.contains_key(name) ==> full.contains_key(name) && full[name] == body[name]
        }),
    decreases columns.len(),
{
    if columns.len() > 0 {
        let t = columns.drop_last();
        let n = columns.len() - 1;
        let last = columns[n];
        assert forall|i: int, j: int| 0 <= i < j < t.len() implies (#[trigger] t[i]).name != (#[trigger] t[j]).name by {
            assert(columns[i].name != columns[j].name);
        }
        lemma_filled(t, body);
        let before = record::with_columns(t, body)->Ok_0;
        let full = record::with_columns(columns, body)->Ok_0;
        let key = encode_utf8(last.name);
        assert(!body.contains_key(key) ==> !before.contains_key(key)) by {
            if before.contains_key(key) && !body.contains_key(key) {
                assert(record::is_column(t, key));
                let k = choose|k: int| 0 <= k < t.len() && encode_utf8((#[trigger] t[k]).name) == key;
                bytes::lemma_utf8_injective(t[k].name, last.name);
                assert(columns[k].name != columns[n].name);
            }
        }
        assert forall|i: int| 0 <= i < columns.len() implies {
            let c = #[trigger] columns[i];
            let name = encode_utf8(c.name);
            &&& full.contains_key(name)
            &&& full[name] == (if body.contains_key(name) {
                body[name]
            } else if c.default is Some {
                c.default->0
            } else {
                ValueView::Null
            })
            &&& body.contains_key(name) ==> fits(c, body[name])
            &&& !c.nullable ==> !(full[name] is Null)
        } by {
            if i < n {
                assert(t[i] == columns[i]);
                let name = encode_utf8(columns[i].name);
                if name == key {
                    bytes::lemma_utf8_injective(columns[i].name, last.name);
                    assert(columns[i].name != columns[n].name);
                }
            }
        }
        assert forall|name: Seq<u8>| #[trigger] full.contains_key(name) implies body.contains_key(name) || record::is_column(columns, name) by {
            if before.contains_key(name) {
                if !body.contains_key(name) {
                    let k = choose|k: int| 0 <= k < t.len() && encode_utf8((#[trigger] t[k]).name) == name;
                    assert(encode_utf8(columns[k].name) == name);
                }
            } else {
                assert(encode_utf8(columns[n].name) == name);
            }
        }
    }
}

/// An id under which the transaction reads no record can be inserted under, and
/// one under which it changed a record to be there, or under which the snapshot
/// shows one, is refused as a duplicate: of a record whose names and values the
/// table takes.
pub proof fn lemma_insert_duplicate(
    before: TxnView,
    st: &State,
    limit: usize,
    table: Seq<char>,
    id: Seq<char>,
    rec: RecordView,
    after: TxnView,
    error: Option<ErrorView>,
)
    requires
        st.inv(),
        before.snapshot <= st.committed_version,
        before.position(table) is None,
        st.table_view(table) is Some,
        txn::insert_outcome(before, st, limit, table, id, rec, after, error),
        record::names_known(st.table_view(table)->0.columns, rec.remove(record::id_key())),
        record::with_columns(st.table_view(table)->0.columns, rec.remove(record::id_key())) is Ok,
    ensures
        error == Some(ErrorView::DuplicateId { table, id }) <==> st.shows(table, encode_utf8(id), before.snapshot),
        error is None || error->0 is DuplicateId || error->0 is MemoryLimit,
{
    let tx = before.touching(st, table)->0;
    lemma_touched(before, st, table, table, id);
    let names = txn::txn_names(before.tables);
    let more = txn::txn_names(tx.tables);
    model::lemma_find(names, table);
    assert(more =~= names.push(table));
    assert forall|j: int| 0 <= j < names.len() implies more[j] != table by {
        if names[j] == table {
            assert(names.contains(table));
        }
    }
    model::lemma_find_is(more, table, names.len() as int);
    assert(tx.operation(table, id) is None);
    let key = encode_utf8(table);
    if txn::above(tx.tables[names.len() as int].high, id) {
        assert(st.above_high(table, encode_utf8(id)));
        assert(st.latest(table, encode_utf8(id)) == Ok::<Option<crate::version::VersionView>, Seq<char>>(None));
        if let Ok(s) = st.versions(table, encode_utf8(id)) {
            primary::lemma_newest_of(s, u64::MAX);
            primary::lemma_newest_of(s, before.snapshot);
            if let Some(v) = primary::newest_of(s, before.snapshot) {
                let k = s.index_of(v);
                assert(s[k] == v);
            }
        }
    }
}

// ---- Deletions --------------------------------------------------------------

/// A deletion finds a record exactly where one is there for the transaction; the
/// record is gone for it then, and every other record is read as before.
pub proof fn lemma_delete_reads_nothing(
    before: TxnView,
    st: &State,
    limit: usize,
    table: Seq<char>,
    id: Seq<char>,
    after: TxnView,
    found: bool,
    other: Seq<char>,
    other_id: Seq<char>,
)
    requires
        txn::delete_outcome(before, st, limit, table, id, after, found, None),
        before.row(st, table, id) is Ok,
    ensures
        found <==> before.row(st, table, id)->Ok_0 is Some,
        after.row(st, table, id) == Ok::<Option<RecordView>, ErrorView>(None),
        other != table || other_id != id ==> after.row(st, other, other_id) == before.row(st, other, other_id),
{
    let tx = before.touching(st, table)->0;
    lemma_touched(before, st, table, table, id);
    lemma_touched(before, st, table, other, other_id);
    if found {
        lemma_staged(tx, table, id, None, table, id);
        lemma_staged(tx, table, id, None, other, other_id);
    }
}

/// A change that is refused leaves everything that the transaction reads as it
/// was.
pub proof fn lemma_refused_changes_nothing(
    before: TxnView,
    st: &State,
    limit: usize,
    table: Seq<char>,
    id: Seq<char>,
    rec: RecordView,
    after: TxnView,
    found: bool,
    e: ErrorView,
    other: Seq<char>,
    other_id: Seq<char>,
)
    requires
        txn::insert_outcome(before, st, limit, table, id, rec, after, Some(e)) || txn::update_outcome(
            before,
            st,
            limit,
            table,
            id,
            rec,
            after,
            Some(e),
        ) || txn::delete_outcome(before, st, limit, table, id, after, found, Some(e)),
    ensures
        after.row(st, other, other_id) == before.row(st, other, other_id),
        after.operation(other, other_id) == before.operation(other, other_id),
{
    lemma_touched(before, st, table, other, other_id);
}

/// A transaction that has just begun reads the committed records.
pub proof fn lemma_begun_reads_committed(st: &State, table: Seq<char>, id: Seq<char>)
    ensures
        (TxnView { snapshot: st.committed_version, tables: Seq::empty(), bytes: 0 }).row(st, table, id) == st.row(
            table,
            id,
            st.committed_version,
        ),
{
    let tx = TxnView { snapshot: st.committed_version, tables: Seq::empty(), bytes: 0 };
    model::lemma_find_none(txn::txn_names(tx.tables), table);
}

/// A record that is inserted asks for an id exactly where it has one, which is a
/// text that is not empty; it is refused where its id is anything else, and gets
/// an id where it has none.
pub proof fn lemma_asked_id(rec: RecordView, id: Seq<char>)
    ensures
        txn::asked_id(rec) == Ok::<Option<Seq<char>>, ErrorView>(Some(id)) <==> rec.contains_key(record::id_key())
            && rec[record::id_key()] == ValueView::Text(id) && id.len() > 0,
        txn::asked_id(rec) == Ok::<Option<Seq<char>>, ErrorView>(None) <==> !rec.contains_key(record::id_key()),
{
}

} // verus!
