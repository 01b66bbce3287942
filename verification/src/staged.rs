//! The changes of a transaction, and what the database would hold with them.

use crate::bytes;
use crate::error::{table_not_found, Error, ErrorView};
use crate::model;
use crate::order::Datum;
use crate::payload;
use crate::record::{self, Record, RecordView};
use crate::schema::{TableSchema, TableView};
use crate::state::{self, add_id, State};
use crate::value::{self, index_key, StoredView, Value, ValueView};
use std::sync::Arc;
use vstd::prelude::*;
use vstd::utf8::*;

verus! {

/// A change of one record: its new contents, or none where it is deleted.
pub struct PreparedChange {
    pub id: String,
    pub operation: Option<Record>,
    pub payload: Option<Arc<Vec<u8>>>,
    /// The change replayed over a newer version of the record.
    pub replay: Option<Replay>,
}

/// What a change comes to over the version `version` of its record; `None`
/// where it cannot be replayed. It is made over the latest version while no
/// commit can come between.
pub struct Replay {
    pub version: u64,
    pub outcome: Option<Replayed>,
}

pub struct Replayed {
    pub record: Record,
    pub payload: Arc<Vec<u8>>,
}

/// The changes of one table in the order of their ids.
pub struct PreparedTable {
    pub name: String,
    pub schema: TableSchema,
    pub changes: Vec<PreparedChange>,
}

#[verifier::ext_equal]
pub struct ChangeView {
    pub id: Seq<char>,
    pub operation: Option<RecordView>,
    pub payload: Option<Seq<u8>>,
}

#[verifier::ext_equal]
pub struct StagedView {
    pub name: Seq<char>,
    pub schema: TableView,
    pub changes: Seq<ChangeView>,
}

impl View for PreparedChange {
    type V = ChangeView;

    open spec fn view(&self) -> ChangeView {
        ChangeView {
            id: self.id@,
            operation: match self.operation {
                Some(rec) => Some(rec@),
                None => None,
            },
            payload: match self.payload {
                Some(p) => Some(p@),
                None => None,
            },
        }
    }
}

impl View for PreparedTable {
    type V = StagedView;

    open spec fn view(&self) -> StagedView {
        StagedView { name: self.name@, schema: self.schema@, changes: model::views(self.changes@) }
    }
}

impl PreparedChange {
    pub open spec fn wf(&self) -> bool {
        &&& self.operation matches Some(rec) ==> rec.wf()
        &&& self.operation is Some <==> self.payload is Some
        &&& self.replay matches Some(r) ==> (r.outcome matches Some(p) ==> p.record.wf())
    }
}

/// No column of `n` is stored out of line.
pub open spec fn all_inline(n: nat) -> Seq<Option<StoredView>> {
    Seq::new(n, |i: int| None::<StoredView>)
}

/// The payload of a replay is the stored form of its record.
pub open spec fn replay_stored(t: TableView, replay: Option<Replay>) -> bool {
    replay matches Some(r) ==> (r.outcome matches Some(p) ==> {
        &&& record::record_fits(t.columns, p.record@, all_inline(t.columns.len()))
        &&& p.payload@ == payload::payload_bytes(record::ordered_fields(t.columns, p.record@, all_inline(t.columns.len())))
    })
}

impl PreparedTable {
    pub open spec fn wf(&self) -> bool {
        forall|i: int|
            0 <= i < self.changes@.len() ==> (#[trigger] self.changes@[i]).wf() && replay_stored(self.schema@, self.changes@[i].replay)
    }
}

pub open spec fn staged_wf(staged: Seq<&PreparedTable>) -> bool {
    forall|i: int| 0 <= i < staged.len() ==> (#[trigger] staged[i]).wf()
}

pub open spec fn tables_wf(staged: Seq<PreparedTable>) -> bool {
    forall|i: int| 0 <= i < staged.len() ==> (#[trigger] staged[i]).wf()
}

/// The tables by reference.
pub fn borrow_all(staged: &Vec<PreparedTable>) -> (r: Vec<&PreparedTable>)
    ensures
        r@.len() == staged@.len(),
        forall|i: int| 0 <= i < r@.len() ==> *(#[trigger] r@[i]) == staged@[i],
        model::views(r@) == model::views(staged@),
        staged_wf(r@) == tables_wf(staged@),
{
    let mut out: Vec<&PreparedTable> = Vec::new();
    let mut i: usize = 0;
    while i < staged.len()
        invariant
            i <= staged@.len(),
            out@.len() == i,
            forall|j: int| 0 <= j < i ==> *(#[trigger] out@[j]) == staged@[j],
        decreases staged@.len() - i,
    {
        out.push(&staged[i]);
        i = i + 1;
    }
    proof {
        assert(model::views(out@) =~= model::views(staged@));
        if tables_wf(staged@) {
            assert forall|i: int| 0 <= i < out@.len() implies (#[trigger] out@[i]).wf() by {
                assert(staged@[i].wf());
            }
        }
        if staged_wf(out@) {
            assert forall|i: int| 0 <= i < staged@.len() implies (#[trigger] staged@[i]).wf() by {
                assert(out@[i].wf());
            }
        }
    }
    out
}

/// Every staged table is a table of the catalog, with the schema that the
/// catalog has.
pub open spec fn schemas_current(st: &State, staged: Seq<StagedView>) -> bool {
    forall|i: int| 0 <= i < staged.len() ==> st.table_view((#[trigger] staged[i]).name) == Some(staged[i].schema)
}

pub open spec fn is_staged(staged: Seq<StagedView>, i: int, j: int) -> bool {
    0 <= i < staged.len() && 0 <= j < staged[i].changes.len()
}

/// A change that is staged for a record.
pub open spec fn stages(staged: Seq<StagedView>, i: int, j: int, table: Seq<char>, id: Seq<char>) -> bool {
    is_staged(staged, i, j) && staged[i].name == table && staged[i].changes[j].id == id
}

pub open spec fn has_change(staged: Seq<StagedView>, table: Seq<char>, id: Seq<char>) -> bool {
    exists|i: int, j: int| #[trigger] stages(staged, i, j, table, id)
}

/// No record is changed twice.
pub open spec fn changes_distinct(staged: Seq<StagedView>) -> bool {
    forall|i: int, j: int, k: int, l: int|
        #[trigger] is_staged(staged, i, j) && #[trigger] is_staged(staged, k, l) && staged[i].name == staged[k].name
            && staged[i].changes[j].id == staged[k].changes[l].id ==> i == k && j == l
}

/// The operation that is staged for a record.
pub open spec fn operation_of(staged: Seq<StagedView>, table: Seq<char>, id: Seq<char>) -> Option<RecordView> {
    let (i, j) = choose|i: int, j: int| #[trigger] stages(staged, i, j, table, id);
    staged[i].changes[j].operation
}

/// The record that there would be with the staged changes applied.
pub open spec fn final_row(st: &State, staged: Seq<StagedView>, table: Seq<char>, id: Seq<char>) -> Result<Option<RecordView>, ErrorView> {
    match st.table_view(table) {
        None => Err(ErrorView::TableNotFound(table)),
        Some(t) => if has_change(staged, table, id) {
            match operation_of(staged, table, id) {
                Some(rec) => Ok(Some(state::with_id(t, rec, id))),
                None => Ok(None),
            }
        } else {
            st.row(table, id, u64::MAX)
        },
    }
}

/// The change that is staged for a record.
pub fn prepared_change<'a>(staged: &Vec<&'a PreparedTable>, table: &str, id: &str) -> (r: Option<&'a PreparedChange>)
    ensures
        r is Some <==> has_change(model::views(staged@), table@, id@),
        r matches Some(c) ==> exists|i: int, j: int|
            #[trigger] stages(model::views(staged@), i, j, table@, id@) && i < staged@.len() && *c == staged@[i].changes@[j],
{
    let ghost all = model::views(staged@);
    let mut i: usize = 0;
    while i < staged.len()
        invariant
            i <= staged@.len(),
            all == model::views(staged@),
            forall|p: int, q: int| #[trigger] stages(all, p, q, table@, id@) ==> p >= i,
        decreases staged@.len() - i,
    {
        let t = staged[i];
        assert(all[i as int] == t@);
        if bytes::same_text(t.name.as_str(), table) {
            let mut j: usize = 0;
            while j < t.changes.len()
                invariant
                    i < staged@.len(),
                    *t == staged@[i as int],
                    all == model::views(staged@),
                    all[i as int] == t@,
                    t.name@ == table@,
                    j <= t.changes@.len(),
                    forall|p: int, q: int| #[trigger] stages(all, p, q, table@, id@) ==> p > i || (p == i && q >= j),
                decreases t.changes@.len() - j,
            {
                assert(all[i as int].changes[j as int] == t.changes@[j as int]@);
                if bytes::same_text(t.changes[j].id.as_str(), id) {
                    assert(stages(all, i as int, j as int, table@, id@));
                    return Some(&t.changes[j]);
                }
                j = j + 1;
            }
        }
        i = i + 1;
    }
    None
}

/// The record that there would be with the staged changes applied.
pub fn final_record(st: &State, staged: &Vec<&PreparedTable>, table: &str, id: &str) -> (r: Result<Option<Record>, Error>)
    requires
        st.wf(),
        staged_wf(staged@),
        changes_distinct(model::views(staged@)),
    ensures
        match final_row(st, model::views(staged@), table@, id@) {
            Ok(None) => r is Ok && r->Ok_0 is None,
            Ok(Some(rec)) => r matches Ok(Some(got)) && got.wf() && got@ == rec,
            Err(e) => r is Err && r->Err_0@ == e,
        },
{
    let schema = match st.catalog.table(table) {
        None => {
            return Err(table_not_found(table));
        },
        Some(t) => t,
    };
    match prepared_change(staged, table, id) {
        Some(change) => {
            proof {
                let all = model::views(staged@);
                let (i, j) = choose|i: int, j: int|
                    #[trigger] stages(all, i, j, table@, id@) && i < staged@.len() && *change == staged@[i].changes@[j];
                let (k, l) = choose|k: int, l: int| #[trigger] stages(all, k, l, table@, id@);
                assert(is_staged(all, i, j) && is_staged(all, k, l));
                assert(all[i].changes[j] == staged@[i].changes@[j]@);
                assert(staged@[i].wf());
            }
            match &change.operation {
                Some(rec) => Ok(Some(add_id(schema, rec.duplicate(), id))),
                None => Ok(None),
            }
        },
        None => st.get_at(table, id, u64::MAX),
    }
}

// ---- Values as index keys ---------------------------------------------------

/// Whether an equality index holds the value: it is not null, and its stored
/// form has a length that a pair can name.
pub open spec fn indexable(v: ValueView) -> bool {
    !(v is Null) && value::encodable(v) && value::encoded(v).len() <= u32::MAX
}

/// The key of a record in the index of a column.
pub open spec fn key_in(rec: RecordView, column: Seq<char>) -> Option<Seq<u8>> {
    let name = encode_utf8(column);
    if rec.contains_key(name) && indexable(rec[name]) {
        Some(value::encoded(rec[name]))
    } else {
        None
    }
}

/// The key of a value in an equality index.
pub fn value_key(v: &Value) -> (r: Option<Vec<u8>>)
    ensures
        r is Some <==> indexable(v@),
        r matches Some(k) ==> k@ == value::encoded(v@),
{
    let n: usize = match v {
        Value::Null => {
            return None;
        },
        Value::Text(s) => bytes::byte_len(s.as_str()),
        Value::Blob(data) => data.len(),
        Value::Json(s) => bytes::byte_len(s.as_str()),
        Value::Vector(w) => {
            if w.len() > (u32::MAX / 4) as usize {
                proof {
                    if value::encodable(v@) {
                        value::lemma_component_len(v@->Vector_0);
                        bytes::lemma_le_len(w@.len(), 4);
                        assert(value::encoded(v@).len() > u32::MAX);
                    }
                }
                return None;
            }
            proof {
                value::lemma_component_len(w@);
            }
            w.len() * 4
        },
        _ => 0,
    };
    proof {
        lemma_encoded_len(v@);
    }
    if n > (u32::MAX - 5) as usize {
        return None;
    }
    Some(index_key(v))
}

/// How long the stored form of a value is.
proof fn lemma_encoded_len(v: ValueView)
    ensures
        match v {
            ValueView::Text(s) => value::encoded(v).len() == encode_utf8(s).len() + 5,
            ValueView::Blob(data) => value::encoded(v).len() == data.len() + 5,
            ValueView::Json(s) => value::encoded(v).len() == encode_utf8(s).len() + 5,
            ValueView::Vector(w) => value::encoded(v).len() == 4 * w.len() + 5,
            _ => value::encoded(v).len() <= 9,
        },
{
    broadcast use bytes::lemma_le_len;
    broadcast use value::lemma_component_len;

}

/// The key of a record in the index of a column.
pub fn record_key(rec: &Record, column: &str) -> (r: Option<Vec<u8>>)
    requires
        rec.wf(),
    ensures
        r is Some <==> key_in(rec@, column@) is Some,
        r matches Some(k) ==> key_in(rec@, column@) == Some(k@),
{
    match rec.get(column.as_bytes()) {
        Some(v) => value_key(v),
        None => None,
    }
}

} // verus!
