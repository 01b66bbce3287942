//! What the rules of a table refuse and what they let through, over the values
//! that the records have.

use crate::bytes;
use crate::commit_laws::{current_key, index_agrees};
use crate::error::ErrorView;
use crate::find_laws;
use crate::foreign;
use crate::foreign_laws::{self, cell};
use crate::index_laws;
use crate::model;
use crate::reads;
use crate::record::{self, RecordView};
use crate::schema::TableView;
use crate::segment;
use crate::staged::{self, StagedView};
use crate::state::{self, State};
use crate::unique;
use crate::value::{self, ValueView};
use vstd::prelude::*;
use vstd::utf8::*;

verus! {

// ---- Keys of values ---------------------------------------------------------

/// Which values an equality index lists: none for a missing or null one, and a key
/// of its own for every truth value, number, date and time, and for every text,
/// document and blob that is not too long to be named in a pair.
pub proof fn lemma_value_has_key(rec: RecordView, column: Seq<char>)
    ensures
        ({
            let name = encode_utf8(column);
            &&& !rec.contains_key(name) ==> staged::key_in(rec, column) is None
            &&& rec.contains_key(name) ==> match rec[name] {
                ValueView::Null => staged::key_in(rec, column) is None,
                ValueView::Text(s) => encode_utf8(s).len() + 5 <= u32::MAX ==> staged::key_in(rec, column) is Some,
                ValueView::Json(s) => encode_utf8(s).len() + 5 <= u32::MAX ==> staged::key_in(rec, column) is Some,
                ValueView::Blob(b) => b.len() + 5 <= u32::MAX ==> staged::key_in(rec, column) is Some,
                ValueView::Vector(_) => true,
                _ => staged::key_in(rec, column) is Some,
            }
        }),
{
    let name = encode_utf8(column);
    if rec.contains_key(name) {
        match rec[name] {
            ValueView::Text(s) => {
                bytes::lemma_le_len(encode_utf8(s).len(), 4);
            },
            ValueView::Json(s) => {
                bytes::lemma_le_len(encode_utf8(s).len(), 4);
            },
            ValueView::Blob(b) => {
                bytes::lemma_le_len(b.len(), 4);
            },
            ValueView::Int64(n) => {
                bytes::lemma_le_len(value::bits64(n), 8);
            },
            ValueView::Timestamp(n) => {
                bytes::lemma_le_len(value::bits64(n), 8);
            },
            ValueView::Time(n) => {
                bytes::lemma_le_len(value::bits64(n), 8);
            },
            ValueView::Float64(n) => {
                bytes::lemma_le_len(n as nat, 8);
            },
            ValueView::Date(n) => {
                bytes::lemma_le_len(value::bits32(n), 4);
            },
            _ => {},
        }
    }
}

/// Two records have one key in a column exactly where they have one value there
/// that has a key.
pub proof fn lemma_same_key_same_value(a: RecordView, b: RecordView, column: Seq<char>)
    requires
        staged::key_in(a, column) is Some,
        staged::key_in(b, column) is Some,
    ensures
        staged::key_in(a, column) == staged::key_in(b, column) <==> a[encode_utf8(column)] == b[encode_utf8(column)],
{
    let name = encode_utf8(column);
    if staged::key_in(a, column) == staged::key_in(b, column) {
        value::lemma_encoded_injective(a[name], b[name]);
    }
}

/// Values are equal where they are the same, but for floats: the two zeros are
/// equal, and what is not a number equals nothing.
pub proof fn lemma_equality(a: ValueView, b: ValueView)
    ensures
        !(a is Float64) && !(a is Vector) ==> (value::value_eq(a, b) <==> a == b),
        a is Float64 && b is Float64 ==> {
            let x = a->Float64_0;
            let y = b->Float64_0;
            let (p, q) = (x % 0x8000_0000_0000_0000, y % 0x8000_0000_0000_0000);
            value::value_eq(a, b) <==> p <= 0x7ff0_0000_0000_0000 && q <= 0x7ff0_0000_0000_0000 && (x == y || (p == 0 && q == 0))
        },
        a is Float64 && !(b is Float64) ==> !value::value_eq(a, b),
        a is Vector && !(b is Vector) ==> !value::value_eq(a, b),
{
}

// ---- Unique indexes ---------------------------------------------------------

/// Where no two records of a table share a key in a column, no two different
/// records have one value in it that has a key.
pub proof fn lemma_unique_values(st: &State, t: TableView, column: Seq<char>, a: Seq<char>, b: Seq<char>, v: ValueView)
    requires
        st.table_view(t.name) == Some(t),
        index_laws::stored_column(t, column),
        index_laws::unique_now(st, t.name, column),
        staged::indexable(v),
        cell(st.row(t.name, a, u64::MAX), column) == Some(v),
        cell(st.row(t.name, b, u64::MAX), column) == Some(v),
    ensures
        a == b,
{
    lemma_cell_key(st, t, column, a, v);
    lemma_cell_key(st, t, column, b, v);
}

proof fn lemma_cell_key(st: &State, t: TableView, column: Seq<char>, id: Seq<char>, v: ValueView)
    requires
        st.table_view(t.name) == Some(t),
        index_laws::stored_column(t, column),
        staged::indexable(v),
        cell(st.row(t.name, id, u64::MAX), column) == Some(v),
    ensures
        current_key(st, t.name, column, id) == Some(value::encoded(v)),
{
    let name = encode_utf8(column);
    let w = st.latest(t.name, encode_utf8(id))->Ok_0->0;
    let rec = segment::record_of(st.images(), st.blobs@, w.kind)->Ok_0;
    let row = state::with_id(t, rec, id);
    assert(row.contains_key(name) == rec.contains_key(name));
    assert(row[name] == rec[name]);
}

/// The records that a commit leaves have one value in a unique column.
pub open spec fn would_repeat(st: &State, staged: Seq<StagedView>, table: Seq<char>, column: Seq<char>, a: Seq<char>, b: Seq<char>) -> bool {
    &&& a != b
    &&& cell(staged::final_row(st, staged, table, a), column) is Some
    &&& cell(staged::final_row(st, staged, table, a), column) == cell(staged::final_row(st, staged, table, b), column)
}

/// A commit is refused for a unique index only where two different records would
/// have one value in a column that the table declares unique.
pub proof fn lemma_unique_refusal_has_cause(st: &State, staged: Seq<StagedView>, i: int, j: int, k: int, e: ErrorView) -> (r: (Seq<char>, Seq<char>))
    requires
        st.wf(),
        staged::schemas_current(st, staged),
        staged::changes_distinct(staged),
        unique::claim_error(st, staged, i, j, k, e),
        e is UniqueViolation,
        index_laws::stored_column(staged[i].schema, staged[i].schema.indexes[k].column),
        forall|at: int| 0 <= at < st.secondary@.len() ==> index_agrees(st, #[trigger] st.secondary@[at]),
    ensures
        staged[i].schema.indexes[k].unique,
        e == (ErrorView::UniqueViolation { table: staged[i].name, column: staged[i].schema.indexes[k].column }),
        would_repeat(st, staged, staged[i].name, staged[i].schema.indexes[k].column, r.0, r.1),
{
    let t = staged[i].schema;
    let column = t.indexes[k].column;
    let table = staged[i].name;
    let a = staged[i].changes[j].id;
    st.lemma_table(table);
    lemma_final_staged(st, staged, i, j, column);
    if unique::collides_before(staged, i, j, k) {
        let (p, q, x) = choose|p: int, q: int, x: int|
            unique::before(p, q, x, i, j, k) && #[trigger] unique::collide(staged, i, j, k, p, q, x);
        let b = staged[p].changes[q].id;
        lemma_final_staged(st, staged, p, q, column);
        assert(st.table_view(staged[p].name) == Some(staged[p].schema));
        lemma_same_key_same_value(staged[i].changes[j].operation->0, staged[p].changes[q].operation->0, column);
        (a, b)
    } else {
        let b = choose|b: Seq<char>| #[trigger] unique::taken_by(st, staged, i, j, k, b);
        let slot = state::slot_of(st.secondary@, table, column)->0;
        state::lemma_slot_of(st.secondary@, table, column);
        let key = unique::claimed(staged, i, j, k)->0;
        assert(index_agrees(st, st.secondary@[slot]));
        assert(st.secondary@[slot].index.member(key, encode_utf8(b)));
        assert(current_key(st, table, column, b) == Some(key));
        lemma_key_cell(st, t, column, b);
        let w = st.latest(table, encode_utf8(b))->Ok_0->0;
        let rec = segment::record_of(st.images(), st.blobs@, w.kind)->Ok_0;
        lemma_same_key_same_value(staged[i].changes[j].operation->0, rec, column);
        (a, b)
    }
}

proof fn lemma_final_staged(st: &State, staged: Seq<StagedView>, i: int, j: int, column: Seq<char>)
    requires
        staged::schemas_current(st, staged),
        staged::changes_distinct(staged),
        staged::is_staged(staged, i, j),
        index_laws::stored_column(staged[i].schema, column),
    ensures
        staged[i].changes[j].operation matches Some(rec) ==> staged::key_in(rec, column) is Some ==> cell(
            staged::final_row(st, staged, staged[i].name, staged[i].changes[j].id),
            column,
        ) == Some(rec[encode_utf8(column)]),
{
    let table = staged[i].name;
    let id = staged[i].changes[j].id;
    assert(staged::stages(staged, i, j, table, id));
    let (x, y) = choose|x: int, y: int| #[trigger] staged::stages(staged, x, y, table, id);
    assert(staged::is_staged(staged, x, y));
    assert(x == i && y == j);
    assert(st.table_view(table) == Some(staged[i].schema));
    if let Some(rec) = staged[i].changes[j].operation {
        let row = state::with_id(staged[i].schema, rec, id);
        let name = encode_utf8(column);
        assert(row.contains_key(name) == rec.contains_key(name));
        if rec.contains_key(name) {
            assert(row[name] == rec[name]);
        }
    }
}

proof fn lemma_key_cell(st: &State, t: TableView, column: Seq<char>, id: Seq<char>)
    requires
        st.table_view(t.name) == Some(t),
        index_laws::stored_column(t, column),
        current_key(st, t.name, column, id) is Some,
    ensures
        st.latest(t.name, encode_utf8(id)) is Ok,
        st.latest(t.name, encode_utf8(id))->Ok_0 is Some,
        ({
            let w = st.latest(t.name, encode_utf8(id))->Ok_0->0;
            let rec = segment::record_of(st.images(), st.blobs@, w.kind)->Ok_0;
            &&& segment::record_of(st.images(), st.blobs@, w.kind) is Ok
            &&& staged::key_in(rec, column) == current_key(st, t.name, column, id)
            &&& cell(st.row(t.name, id, u64::MAX), column) == Some(rec[encode_utf8(column)])
        }),
{
    let name = encode_utf8(column);
    let w = st.latest(t.name, encode_utf8(id))->Ok_0->0;
    let rec = segment::record_of(st.images(), st.blobs@, w.kind)->Ok_0;
    let row = state::with_id(t, rec, id);
    assert(row.contains_key(name) == rec.contains_key(name));
    assert(row[name] == rec[name]);
}

// ---- Foreign keys -----------------------------------------------------------

/// A reference is refused as one that finds nothing only where no record of the
/// referenced table has its value once the changes are there. A referenced column
/// with an index is asked only about values that the index can tell apart.
pub proof fn lemma_orphan_has_cause(st: &State, staged: Seq<StagedView>, i: int, j: int, f: int, id: Seq<char>)
    requires
        st.wf(),
        foreign::refers(staged, i, j, f),
        !foreign::resolves(st, staged, i, j, f),
        st.table_view(staged[i].schema.foreign_keys[f].referenced_table) is Some,
        state::slot_of(
            st.secondary@,
            staged[i].schema.foreign_keys[f].referenced_table,
            staged[i].schema.foreign_keys[f].referenced_column,
        ) is Some ==> index_laws::stored_column(
            st.table_view(staged[i].schema.foreign_keys[f].referenced_table)->0,
            staged[i].schema.foreign_keys[f].referenced_column,
        ) && find_laws::is_exact(foreign::reference(staged, i, j, f)->0) && staged::indexable(foreign::reference(staged, i, j, f)->0),
        forall|at: int| 0 <= at < st.secondary@.len() ==> index_agrees(st, #[trigger] st.secondary@[at]),
    ensures
        ({
            let fk = staged[i].schema.foreign_keys[f];
            let v = foreign::reference(staged, i, j, f)->0;
            let found = cell(staged::final_row(st, staged, fk.referenced_table, id), fk.referenced_column);
            &&& !(v is Null)
            &&& found is Some ==> !value::value_eq(found->0, v)
        }),
{
    let fk = staged[i].schema.foreign_keys[f];
    let v = foreign::reference(staged, i, j, f)->0;
    let t = st.table_view(fk.referenced_table)->0;
    st.lemma_table(fk.referenced_table);
    let found = cell(staged::final_row(st, staged, t.name, id), fk.referenced_column);
    if found is Some && value::value_eq(found->0, v) {
        assert(foreign::has_value(st, staged, t.name, fk.referenced_column, v, id));
        if !staged::has_change(staged, t.name, id) {
            let column = fk.referenced_column;
            if column == crate::schema::id_name() && t.implicit_id {
                let w = st.latest(t.name, encode_utf8(id))->Ok_0->0;
                let rec = segment::record_of(st.images(), st.blobs@, w.kind)->Ok_0;
                let row = state::with_id(t, rec, id);
                assert(row[record::id_key()] == ValueView::Text(id));
                assert(found->0 == ValueView::Text(id));
            } else if let Some(at) = state::slot_of(st.secondary@, t.name, column) {
                state::lemma_slot_of(st.secondary@, t.name, column);
                find_laws::lemma_exact(found->0, v);
                lemma_cell_key(st, t, column, id, v);
                assert(index_agrees(st, st.secondary@[at]));
                assert(st.secondary@[at].index.member(value::encoded(v), encode_utf8(id)));
            } else {
                assert(st.shows(t.name, encode_utf8(id), u64::MAX));
                reads::lemma_versions_held(st, t.name, encode_utf8(id), u64::MAX);
            }
        }
        assert(foreign::is_match(st, staged, t, fk.referenced_column, v, id));
    }
}

/// A deletion or a replacement is refused for a reference to the record only
/// where, once the changes are there, some record still refers to the value that
/// goes and no record has it.
pub proof fn lemma_restriction_has_cause(st: &State, staged: Seq<StagedView>, i: int, j: int, c: int, f: int) -> (child: Seq<char>)
    requires
        foreign::breaks(st, staged, i, j, c, f),
        !(foreign::old_value(st, staged, i, j, c, f)->0 is Null),
    ensures
        ({
            let fk = st.catalog@[c].foreign_keys[f];
            let v = foreign::old_value(st, staged, i, j, c, f)->0;
            &&& fk.referenced_table == staged[i].name
            &&& cell(st.row(staged[i].name, staged[i].changes[j].id, u64::MAX), fk.referenced_column) == Some(v)
            &&& cell(staged::final_row(st, staged, st.catalog@[c].name, child), fk.column) is Some
            &&& value::value_eq(cell(staged::final_row(st, staged, st.catalog@[c].name, child), fk.column)->0, v)
        }),
{
    let fk = st.catalog@[c].foreign_keys[f];
    let v = foreign::old_value(st, staged, i, j, c, f)->0;
    let t = st.table_view(st.catalog@[c].name)->0;
    let child = choose|id: Seq<char>| #[trigger] foreign::is_match(st, staged, t, fk.column, v, id);
    let names = crate::schema::table_names(st.catalog@);
    model::lemma_find(names, st.catalog@[c].name);
    foreign_laws::lemma_equal_values(staged::final_row(st, staged, t.name, child)->Ok_0->0[encode_utf8(fk.column)], v, v);
    child
}

} // verus!
