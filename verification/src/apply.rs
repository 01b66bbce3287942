//! Applying committed changes to the state.

use crate::cow::share;
use crate::model;
use crate::primary;
use crate::record::{Record, RecordView};
use crate::schema::{IndexingMode, TableSchema, TableView};
use crate::secondary::{self, PairChange, SecIdx};
use crate::staged::{self, record_key};
use crate::state::{self, SecSlot, State};
use crate::value::{Value, ValueView};
use crate::version::{self, KindView, VKind, VersionEntry, VersionView};
use std::sync::Arc;
use vstd::prelude::*;
use vstd::utf8::*;

verus! {

// ---- Events for text and vector indexes -------------------------------------

/// What a change means to the text and vector indexes of its table.
pub enum IndexEvent {
    TextRemoved { table: String, column: String, id: String, text: String },
    TextAdded { table: String, column: String, id: String, text: String },
    /// Index the vector at once, or in the background.
    VectorSet { table: String, column: String, id: String, vector: Vec<u32>, background: bool },
    VectorRemoved { table: String, column: String, id: String },
}

#[verifier::ext_equal]
pub enum EventView {
    TextRemoved { table: Seq<char>, column: Seq<char>, id: Seq<char>, text: Seq<char> },
    TextAdded { table: Seq<char>, column: Seq<char>, id: Seq<char>, text: Seq<char> },
    VectorSet { table: Seq<char>, column: Seq<char>, id: Seq<char>, vector: Seq<u32>, background: bool },
    VectorRemoved { table: Seq<char>, column: Seq<char>, id: Seq<char> },
}

impl View for IndexEvent {
    type V = EventView;

    open spec fn view(&self) -> EventView {
        match self {
            IndexEvent::TextRemoved { table, column, id, text } => EventView::TextRemoved {
                table: table@,
                column: column@,
                id: id@,
                text: text@,
            },
            IndexEvent::TextAdded { table, column, id, text } => EventView::TextAdded {
                table: table@,
                column: column@,
                id: id@,
                text: text@,
            },
            IndexEvent::VectorSet { table, column, id, vector, background } => EventView::VectorSet {
                table: table@,
                column: column@,
                id: id@,
                vector: vector@,
                background: *background,
            },
            IndexEvent::VectorRemoved { table, column, id } => EventView::VectorRemoved { table: table@, column: column@, id: id@ },
        }
    }
}

/// One committed change: the record before and after it.
#[verifier::ext_equal]
pub struct Step {
    pub table: Seq<char>,
    pub schema: TableView,
    pub id: Seq<char>,
    pub prior: Option<RecordView>,
    pub put: Option<RecordView>,
    pub payload: Option<Seq<u8>>,
}

/// The text that a record has in a column.
pub open spec fn text_in(rec: Option<RecordView>, column: Seq<char>) -> Option<Seq<char>> {
    match rec {
        Some(rec) => if rec.contains_key(encode_utf8(column)) {
            match rec[encode_utf8(column)] {
                ValueView::Text(s) => Some(s),
                _ => None,
            }
        } else {
            None
        },
        None => None,
    }
}

pub open spec fn vector_in(rec: Option<RecordView>, column: Seq<char>) -> Option<Seq<u32>> {
    match rec {
        Some(rec) => if rec.contains_key(encode_utf8(column)) {
            match rec[encode_utf8(column)] {
                ValueView::Vector(w) => Some(w),
                _ => None,
            }
        } else {
            None
        },
        None => None,
    }
}

/// What the first `n` text indexes lose.
pub open spec fn texts_removed(s: Step, n: int) -> Seq<EventView>
    decreases n,
{
    if n <= 0 {
        Seq::empty()
    } else {
        let column = s.schema.text_indexes[n - 1].column;
        match text_in(s.prior, column) {
            Some(text) => texts_removed(s, n - 1).push(EventView::TextRemoved { table: s.table, column, id: s.id, text }),
            None => texts_removed(s, n - 1),
        }
    }
}

/// What the first `n` text indexes gain.
pub open spec fn texts_added(s: Step, n: int) -> Seq<EventView>
    decreases n,
{
    if n <= 0 {
        Seq::empty()
    } else {
        let column = s.schema.text_indexes[n - 1].column;
        match text_in(s.put, column) {
            Some(text) => texts_added(s, n - 1).push(EventView::TextAdded { table: s.table, column, id: s.id, text }),
            None => texts_added(s, n - 1),
        }
    }
}

/// What the first `n` vector indexes are told.
pub open spec fn vectors_set(s: Step, n: int) -> Seq<EventView>
    decreases n,
{
    if n <= 0 {
        Seq::empty()
    } else {
        let def = s.schema.vector_indexes[n - 1];
        vectors_set(s, n - 1).push(
            match vector_in(s.put, def.column) {
                Some(vector) => EventView::VectorSet {
                    table: s.table,
                    column: def.column,
                    id: s.id,
                    vector,
                    background: def.mode == IndexingMode::Async,
                },
                None => EventView::VectorRemoved { table: s.table, column: def.column, id: s.id },
            },
        )
    }
}

/// Everything that a change means to text and vector indexes.
pub open spec fn events_of(s: Step) -> Seq<EventView> {
    texts_removed(s, s.schema.text_indexes.len() as int) + texts_added(s, s.schema.text_indexes.len() as int) + vectors_set(
        s,
        s.schema.vector_indexes.len() as int,
    )
}

// ---- Equality indexes -------------------------------------------------------

/// Whether one of the first `n` indexes of a table is on the column.
pub open spec fn indexed(t: TableView, n: int, column: Seq<char>) -> bool {
    exists|k: int| 0 <= k < n && (#[trigger] t.indexes[k]).column == column
}

/// Whether the change concerns the index, going by the first `n` indexes of
/// its table.
pub open spec fn concerns(slot: SecSlot, s: Step, n: int) -> bool {
    slot.table@ == s.table && indexed(s.schema, n, slot.column@)
}

pub open spec fn key_of_record(rec: Option<RecordView>, column: Seq<char>) -> Option<Seq<u8>> {
    match rec {
        Some(rec) => staged::key_in(rec, column),
        None => None,
    }
}

/// The changes of an index once the record before the change is taken out.
pub open spec fn overlay_removed(index: SecIdx, key: Option<Seq<u8>>, id: Seq<u8>) -> Map<Seq<u8>, PairChange> {
    match key {
        None => index.overlay@,
        Some(k) => if index.runs@.len() == 0 {
            index.overlay@.remove(secondary::pair_of(k, id))
        } else {
            index.overlay@.insert(secondary::pair_of(k, id), PairChange::Removed)
        },
    }
}

/// The changes of an index once the record after the change is put in.
pub open spec fn overlay_added(overlay: Map<Seq<u8>, PairChange>, key: Option<Seq<u8>>, id: Seq<u8>) -> Map<Seq<u8>, PairChange> {
    match key {
        None => overlay,
        Some(k) => overlay.insert(secondary::pair_of(k, id), PairChange::Added),
    }
}

/// The changes of an index after a committed change.
pub open spec fn overlay_after(slot: SecSlot, s: Step) -> Map<Seq<u8>, PairChange> {
    if concerns(slot, s, s.schema.indexes.len() as int) {
        overlay_added(
            overlay_removed(slot.index, key_of_record(s.prior, slot.column@), encode_utf8(s.id)),
            key_of_record(s.put, slot.column@),
            encode_utf8(s.id),
        )
    } else {
        slot.index.overlay@
    }
}

/// The index is the same but for its changes.
pub open spec fn same_slot(a: SecSlot, b: SecSlot) -> bool {
    &&& a.table == b.table
    &&& a.column == b.column
    &&& a.index.generation == b.index.generation
    &&& a.index.runs == b.index.runs
}

pub open spec fn slots_same(a: Seq<SecSlot>, b: Seq<SecSlot>) -> bool {
    a.len() == b.len() && forall|i: int| 0 <= i < a.len() ==> same_slot(#[trigger] a[i], #[trigger] b[i])
}

pub proof fn lemma_slots_same(a: Seq<SecSlot>, b: Seq<SecSlot>, table: Seq<char>, column: Seq<char>)
    requires
        slots_same(a, b),
    ensures
        state::slot_of(a, table, column) == state::slot_of(b, table, column),
        state::slots_distinct(a) == state::slots_distinct(b),
    decreases a.len(),
{
    if a.len() > 0 {
        assert forall|i: int| 0 <= i < a.drop_last().len() implies same_slot(#[trigger] a.drop_last()[i], b.drop_last()[i]) by {
            assert(same_slot(a[i], b[i]));
        }
        assert(slots_same(a.drop_last(), b.drop_last()));
        lemma_slots_same(a.drop_last(), b.drop_last(), table, column);
        assert(same_slot(a[a.len() - 1], b[b.len() - 1]));
    }
    if state::slots_distinct(a) {
        assert forall|i: int, j: int| 0 <= i < j < b.len() implies (#[trigger] b[i]).table@ != (#[trigger] b[j]).table@ || b[i].column@
            != b[j].column@ by {
            assert(same_slot(a[i], b[i]) && same_slot(a[j], b[j]));
        }
    }
    if state::slots_distinct(b) {
        assert forall|i: int, j: int| 0 <= i < j < a.len() implies (#[trigger] a[i]).table@ != (#[trigger] a[j]).table@ || a[i].column@
            != a[j].column@ by {
            assert(same_slot(a[i], b[i]) && same_slot(a[j], b[j]));
        }
    }
}

fn text_value<'a>(rec: &'a Option<Record>, column: &str) -> (r: Option<&'a String>)
    requires
        rec matches Some(rec) ==> rec.wf(),
    ensures
        r is Some <==> text_in(option_record(*rec), column@) is Some,
        r matches Some(s) ==> text_in(option_record(*rec), column@) == Some(s@),
{
    match rec {
        None => None,
        Some(rec) => match rec.get(column.as_bytes()) {
            Some(Value::Text(s)) => Some(s),
            _ => None,
        },
    }
}

pub open spec fn option_record(rec: Option<Record>) -> Option<RecordView> {
    match rec {
        Some(rec) => Some(rec@),
        None => None,
    }
}

pub open spec fn option_payload(p: Option<Arc<Vec<u8>>>) -> Option<Seq<u8>> {
    match p {
        Some(p) => Some(p@),
        None => None,
    }
}

fn copy_components(w: &Vec<u32>) -> (r: Vec<u32>)
    ensures
        r@ == w@,
{
    let mut out: Vec<u32> = Vec::new();
    let mut i: usize = 0;
    while i < w.len()
        invariant
            i <= w@.len(),
            out@ == w@.subrange(0, i as int),
        decreases w@.len() - i,
    {
        out.push(w[i]);
        assert(w@.subrange(0, i + 1) =~= w@.subrange(0, i as int).push(w@[i as int]));
        i = i + 1;
    }
    assert(w@.subrange(0, i as int) =~= w@);
    out
}

/// Tell the text and vector indexes of a change.
fn push_events(
    events: &mut Vec<IndexEvent>,
    schema: &TableSchema,
    table: &str,
    id: &str,
    prior: &Option<Record>,
    put: &Option<Record>,
    Ghost(s): Ghost<Step>,
)
    requires
        prior matches Some(rec) ==> rec.wf(),
        put matches Some(rec) ==> rec.wf(),
        s.table == table@,
        s.schema == schema@,
        s.id == id@,
        s.prior == option_record(*prior),
        s.put == option_record(*put),
    ensures
        model::views(final(events)@) == model::views(old(events)@) + events_of(s),
{
    let ghost start = model::views(events@);
    let mut i: usize = 0;
    assert(start + texts_removed(s, 0) =~= start);
    while i < schema.text_indexes.len()
        invariant
            prior matches Some(rec) ==> rec.wf(),
            s.table == table@,
            s.schema == schema@,
            s.id == id@,
            s.prior == option_record(*prior),
            i <= schema.text_indexes@.len(),
            model::views(events@) == start + texts_removed(s, i as int),
        decreases schema.text_indexes@.len() - i,
    {
        let column = &schema.text_indexes[i].column;
        let ghost before = model::views(events@);
        assert(s.schema.text_indexes[i as int] == schema.text_indexes@[i as int]@);
        match text_value(prior, column.as_str()) {
            Some(text) => {
                let e = IndexEvent::TextRemoved {
                    table: table.to_owned(),
                    column: column.clone(),
                    id: id.to_owned(),
                    text: text.clone(),
                };
                let ghost ev = e@;
                events.push(e);
                assert(model::views(events@) =~= before.push(ev));
                assert(before.push(ev) =~= start + texts_removed(s, i + 1));
            },
            None => {},
        }
        i = i + 1;
    }
    let ghost first = model::views(events@);
    let mut j: usize = 0;
    assert(first + texts_added(s, 0) =~= first);
    while j < schema.text_indexes.len()
        invariant
            put matches Some(rec) ==> rec.wf(),
            s.table == table@,
            s.schema == schema@,
            s.id == id@,
            s.put == option_record(*put),
            j <= schema.text_indexes@.len(),
            model::views(events@) == first + texts_added(s, j as int),
        decreases schema.text_indexes@.len() - j,
    {
        let column = &schema.text_indexes[j].column;
        let ghost before = model::views(events@);
        assert(s.schema.text_indexes[j as int] == schema.text_indexes@[j as int]@);
        match text_value(put, column.as_str()) {
            Some(text) => {
                let e = IndexEvent::TextAdded {
                    table: table.to_owned(),
                    column: column.clone(),
                    id: id.to_owned(),
                    text: text.clone(),
                };
                let ghost ev = e@;
                events.push(e);
                assert(model::views(events@) =~= before.push(ev));
                assert(before.push(ev) =~= first + texts_added(s, j + 1));
            },
            None => {},
        }
        j = j + 1;
    }
    let ghost second = model::views(events@);
    let mut k: usize = 0;
    assert(second + vectors_set(s, 0) =~= second);
    while k < schema.vector_indexes.len()
        invariant
            put matches Some(rec) ==> rec.wf(),
            s.table == table@,
            s.schema == schema@,
            s.id == id@,
            s.put == option_record(*put),
            k <= schema.vector_indexes@.len(),
            model::views(events@) == second + vectors_set(s, k as int),
        decreases schema.vector_indexes@.len() - k,
    {
        let def = &schema.vector_indexes[k];
        let ghost before = model::views(events@);
        assert(s.schema.vector_indexes[k as int] == def@);
        let found: Option<&Vec<u32>> = match put {
            None => None,
            Some(rec) => match rec.get(def.column.as_str().as_bytes()) {
                Some(Value::Vector(w)) => Some(w),
                _ => None,
            },
        };
        let e = match found {
            Some(w) => IndexEvent::VectorSet {
                table: table.to_owned(),
                column: def.column.clone(),
                id: id.to_owned(),
                vector: copy_components(w),
                background: def.mode == IndexingMode::Async,
            },
            None => IndexEvent::VectorRemoved { table: table.to_owned(), column: def.column.clone(), id: id.to_owned() },
        };
        let ghost ev = e@;
        events.push(e);
        assert(model::views(events@) =~= before.push(ev));
        assert(before.push(ev) =~= second + vectors_set(s, k + 1));
        k = k + 1;
    }
    assert(model::views(events@) =~= start + events_of(s));
}

impl State {
    /// Take the record before a change out of the equality indexes.
    fn unindex(&mut self, schema: &TableSchema, table: &str, id: &str, prior: &Record, Ghost(s): Ghost<Step>)
        requires
            old(self).wf(),
            prior.wf(),
            s.table == table@,
            s.schema == schema@,
            s.id == id@,
            s.prior == Some(prior@),
        ensures
            *final(self) == (State { secondary: final(self).secondary, ..*old(self) }),
            slots_same(old(self).secondary@, final(self).secondary@),
            forall|i: int| 0 <= i < final(self).secondary@.len() ==> {
                let slot = #[trigger] old(self).secondary@[i];
                &&& final(self).secondary@[i].index.wf()
                &&& final(self).secondary@[i].index.overlay@ == (if concerns(slot, s, s.schema.indexes.len() as int) {
                    overlay_removed(slot.index, key_of_record(s.prior, slot.column@), encode_utf8(s.id))
                } else {
                    slot.index.overlay@
                })
            },
    {
        let ghost start = self.secondary@;
        let ghost before_all = *self;
        let mut k: usize = 0;
        while k < schema.indexes.len()
            invariant
                before_all == *old(self),
                before_all.wf(),
                start == before_all.secondary@,
                *self == (State { secondary: self.secondary, ..before_all }),
                prior.wf(),
                s.table == table@,
                s.schema == schema@,
                s.id == id@,
                s.prior == Some(prior@),
                k <= schema.indexes@.len(),
                slots_same(start, self.secondary@),
                forall|i: int| 0 <= i < self.secondary@.len() ==> {
                    let slot = #[trigger] start[i];
                    &&& self.secondary@[i].index.wf()
                    &&& self.secondary@[i].index.overlay@ == (if concerns(slot, s, k as int) {
                        overlay_removed(slot.index, key_of_record(s.prior, slot.column@), encode_utf8(s.id))
                    } else {
                        slot.index.overlay@
                    })
                },
            decreases schema.indexes@.len() - k,
        {
            let column = &schema.indexes[k].column;
            let ghost now = self.secondary@;
            proof {
                assert(s.schema.indexes[k as int] == schema.indexes@[k as int]@);
                lemma_slots_same(start, now, table@, column@);
                state::lemma_slot_of(start, table@, column@);
                assert forall|i: int| 0 <= i < start.len() implies concerns(#[trigger] start[i], s, k + 1) == (concerns(
                    start[i],
                    s,
                    k as int,
                ) || (start[i].table@ == s.table && start[i].column@ == column@)) by {
                    lemma_indexed_step(s.schema, k as int, start[i].column@);
                }
            }
            match record_key(prior, column.as_str()) {
                None => {},
                Some(key) => {
                    match self.slot(table, column.as_str()) {
                        None => {},
                        Some(at) => {
                            proof {
                                assert(same_slot(start[at as int], now[at as int]));
                                lemma_removed_twice(start[at as int].index, Some(key@), encode_utf8(s.id));
                            }
                            {
                                let slot = &mut self.secondary[at];
                                slot.index.remove(key.as_slice(), id);
                            }
                            proof {
                                assert forall|i: int| 0 <= i < start.len() && i != at implies !(start[i].table@ == s.table && (
                                #[trigger] start[i]).column@ == column@) by {
                                    if i < at {
                                        assert(start[i].table@ != start[at as int].table@ || start[i].column@ != start[at as int].column@);
                                    } else {
                                        assert(start[at as int].table@ != start[i].table@ || start[at as int].column@ != start[i].column@);
                                    }
                                }
                                assert forall|i: int| 0 <= i < start.len() implies same_slot(#[trigger] start[i], self.secondary@[i]) by {
                                    assert(same_slot(start[i], now[i]));
                                }
                            }
                        },
                    }
                },
            }
            k = k + 1;
        }
    }
}

proof fn lemma_indexed_step(t: TableView, k: int, column: Seq<char>)
    requires
        0 <= k < t.indexes.len(),
    ensures
        indexed(t, k + 1, column) == (indexed(t, k, column) || t.indexes[k].column == column),
{
    if indexed(t, k + 1, column) {
        let q = choose|q: int| 0 <= q < k + 1 && (#[trigger] t.indexes[q]).column == column;
        if q < k {
            assert(t.indexes[q].column == column);
        }
    }
    if indexed(t, k, column) {
        let q = choose|q: int| 0 <= q < k && (#[trigger] t.indexes[q]).column == column;
        assert(t.indexes[q].column == column);
    }
}

proof fn lemma_removed_twice(index: SecIdx, key: Option<Seq<u8>>, id: Seq<u8>)
    requires
        key is Some,
    ensures
        ({
            let once = overlay_removed(index, key, id);
            let pair = secondary::pair_of(key->0, id);
            &&& index.runs@.len() == 0 ==> once.remove(pair) == once
            &&& index.runs@.len() != 0 ==> once.insert(pair, PairChange::Removed) == once
        }),
{
    let once = overlay_removed(index, key, id);
    let pair = secondary::pair_of(key->0, id);
    if index.runs@.len() == 0 {
        assert(once.remove(pair) =~= once);
    } else {
        assert(once.insert(pair, PairChange::Removed) =~= once);
    }
}

impl State {
    /// Put the record after a change into the equality indexes.
    fn reindex(&mut self, schema: &TableSchema, table: &str, id: &str, put: &Record, Ghost(s): Ghost<Step>)
        requires
            old(self).wf(),
            put.wf(),
            s.table == table@,
            s.schema == schema@,
            s.id == id@,
            s.put == Some(put@),
        ensures
            *final(self) == (State { secondary: final(self).secondary, ..*old(self) }),
            slots_same(old(self).secondary@, final(self).secondary@),
            forall|i: int| 0 <= i < final(self).secondary@.len() ==> {
                let slot = #[trigger] old(self).secondary@[i];
                &&& final(self).secondary@[i].index.wf()
                &&& final(self).secondary@[i].index.overlay@ == (if concerns(slot, s, s.schema.indexes.len() as int) {
                    overlay_added(slot.index.overlay@, key_of_record(s.put, slot.column@), encode_utf8(s.id))
                } else {
                    slot.index.overlay@
                })
            },
    {
        let ghost start = self.secondary@;
        let ghost before_all = *self;
        let mut k: usize = 0;
        while k < schema.indexes.len()
            invariant
                before_all == *old(self),
                before_all.wf(),
                start == before_all.secondary@,
                *self == (State { secondary: self.secondary, ..before_all }),
                put.wf(),
                s.table == table@,
                s.schema == schema@,
                s.id == id@,
                s.put == Some(put@),
                k <= schema.indexes@.len(),
                slots_same(start, self.secondary@),
                forall|i: int| 0 <= i < self.secondary@.len() ==> {
                    let slot = #[trigger] start[i];
                    &&& self.secondary@[i].index.wf()
                    &&& self.secondary@[i].index.overlay@ == (if concerns(slot, s, k as int) {
                        overlay_added(slot.index.overlay@, key_of_record(s.put, slot.column@), encode_utf8(s.id))
                    } else {
                        slot.index.overlay@
                    })
                },
            decreases schema.indexes@.len() - k,
        {
            let column = &schema.indexes[k].column;
            let ghost now = self.secondary@;
            proof {
                assert(s.schema.indexes[k as int] == schema.indexes@[k as int]@);
                lemma_slots_same(start, now, table@, column@);
                state::lemma_slot_of(start, table@, column@);
                assert forall|i: int| 0 <= i < start.len() implies concerns(#[trigger] start[i], s, k + 1) == (concerns(
                    start[i],
                    s,
                    k as int,
                ) || (start[i].table@ == s.table && start[i].column@ == column@)) by {
                    lemma_indexed_step(s.schema, k as int, start[i].column@);
                }
            }
            match record_key(put, column.as_str()) {
                None => {},
                Some(key) => {
                    match self.slot(table, column.as_str()) {
                        None => {},
                        Some(at) => {
                            proof {
                                assert(same_slot(start[at as int], now[at as int]));
                                let once = overlay_added(start[at as int].index.overlay@, Some(key@), encode_utf8(s.id));
                                assert(once.insert(secondary::pair_of(key@, encode_utf8(s.id)), PairChange::Added) =~= once);
                            }
                            {
                                let slot = &mut self.secondary[at];
                                slot.index.add(key.as_slice(), id);
                            }
                            proof {
                                assert forall|i: int| 0 <= i < start.len() && i != at implies !(start[i].table@ == s.table && (
                                #[trigger] start[i]).column@ == column@) by {
                                    if i < at {
                                        assert(start[i].table@ != start[at as int].table@ || start[i].column@ != start[at as int].column@);
                                    } else {
                                        assert(start[at as int].table@ != start[i].table@ || start[at as int].column@ != start[i].column@);
                                    }
                                }
                                assert forall|i: int| 0 <= i < start.len() implies same_slot(#[trigger] start[i], self.secondary@[i]) by {
                                    assert(same_slot(start[i], now[i]));
                                }
                            }
                        },
                    }
                },
            }
            k = k + 1;
        }
    }
}

// ---- One change -------------------------------------------------------------

/// The version that a change adds.
pub open spec fn step_entry(s: Step, version: u64) -> VersionView {
    VersionView {
        version,
        kind: match s.payload {
            Some(p) => KindView::MemPut(p),
            None => KindView::MemTombstone,
        },
    }
}

pub open spec fn step_key(s: Step) -> Seq<u8> {
    version::key_of(encode_utf8(s.table), encode_utf8(s.id))
}

pub open spec fn push_entry(delta: Map<Seq<u8>, Seq<VersionView>>, key: Seq<u8>, v: VersionView) -> Map<Seq<u8>, Seq<VersionView>> {
    delta.insert(key, primary::resident(delta, key).push(v))
}

/// The state after one committed change.
pub open spec fn applied(before: &State, after: &State, s: Step, version: u64) -> bool {
    &&& *after == (State { index: after.index, secondary: after.secondary, ..*before })
    &&& after.index.wf()
    &&& after.index.generation == before.index.generation
    &&& after.index.runs == before.index.runs
    &&& after.index.frozen == before.index.frozen
    &&& after.index.delta@ == push_entry(before.index.delta@, step_key(s), step_entry(s, version))
    &&& slots_same(before.secondary@, after.secondary@)
    &&& forall|i: int| 0 <= i < after.secondary@.len() ==> {
        &&& (#[trigger] after.secondary@[i]).index.wf()
        &&& after.secondary@[i].index.overlay@ == overlay_after(before.secondary@[i], s)
    }
}

impl State {
    /// Apply one committed change: add the version, and bring the equality
    /// indexes to the new record. What it means to text and vector indexes is
    /// appended to `events`.
    pub fn apply_one(
        &mut self,
        version: u64,
        schema: &TableSchema,
        table: &str,
        id: &str,
        put: &Option<Record>,
        payload: &Option<Arc<Vec<u8>>>,
        prior: &Option<Record>,
        events: &mut Vec<IndexEvent>,
    )
        requires
            old(self).wf(),
            encode_utf8(table@).len() <= u32::MAX,
            prior matches Some(rec) ==> rec.wf(),
            put matches Some(rec) ==> rec.wf(),
        ensures
            ({
                let s = Step {
                    table: table@,
                    schema: schema@,
                    id: id@,
                    prior: option_record(*prior),
                    put: option_record(*put),
                    payload: option_payload(*payload),
                };
                &&& applied(old(self), final(self), s, version)
                &&& model::views(final(events)@) == model::views(old(events)@) + events_of(s)
            }),
    {
        let ghost s = Step {
            table: table@,
            schema: schema@,
            id: id@,
            prior: option_record(*prior),
            put: option_record(*put),
            payload: option_payload(*payload),
        };
        let ghost before = *self;
        let ghost n = s.schema.indexes.len() as int;
        match prior {
            Some(rec) => {
                self.unindex(schema, table, id, rec, Ghost(s));
            },
            None => {},
        }
        let ghost middle = *self;
        proof {
            lemma_slots_same(before.secondary@, middle.secondary@, table@, table@);
            assert forall|i: int| 0 <= i < middle.secondary@.len() implies (#[trigger] middle.secondary@[i]).index.wf() by {
                let slot = before.secondary@[i];
            }
        }
        match put {
            Some(rec) => {
                self.reindex(schema, table, id, rec, Ghost(s));
            },
            None => {},
        }
        push_events(events, schema, table, id, prior, put, Ghost(s));
        let kind = match payload {
            Some(p) => VKind::MemPut(share(p)),
            None => VKind::MemTombstone,
        };
        let entry = VersionEntry { version, kind };
        self.index.push(table, id, entry);
        proof {
            assert forall|i: int| 0 <= i < self.secondary@.len() implies ({
                &&& (#[trigger] self.secondary@[i]).index.wf()
                &&& self.secondary@[i].index.overlay@ == overlay_after(before.secondary@[i], s)
                &&& same_slot(before.secondary@[i], self.secondary@[i])
            }) by {
                let slot = before.secondary@[i];
                let mid = middle.secondary@[i];
                assert(same_slot(slot, mid));
                assert(concerns(slot, s, n) == concerns(mid, s, n));
            }
        }
    }
}

} // verus!
