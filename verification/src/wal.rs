//! The log record of a commit.

use crate::cow::share;
use crate::model;
use crate::schema::{TableSchema, TableView};
use crate::staged::{PreparedTable, StagedView};
use crate::state::State;
use std::sync::Arc;
use vstd::prelude::*;
use vstd::utf8::*;

verus! {

/// A change of one record: its stored form, or none where it is deleted.
pub struct WalChange {
    pub table: String,
    pub id: String,
    pub payload: Option<Arc<Vec<u8>>>,
}

#[verifier::ext_equal]
pub struct WalChangeView {
    pub table: Seq<char>,
    pub id: Seq<char>,
    pub payload: Option<Seq<u8>>,
}

impl View for WalChange {
    type V = WalChangeView;

    open spec fn view(&self) -> WalChangeView {
        WalChangeView {
            table: self.table@,
            id: self.id@,
            payload: match self.payload {
                Some(p) => Some(p@),
                None => None,
            },
        }
    }
}

/// The greatest identity value that a table had given out.
pub struct WalMark {
    pub table: String,
    pub value: i64,
}

#[verifier::ext_equal]
pub struct WalMarkView {
    pub table: Seq<char>,
    pub value: i64,
}

impl View for WalMark {
    type V = WalMarkView;

    open spec fn view(&self) -> WalMarkView {
        WalMarkView { table: self.table@, value: self.value }
    }
}

/// One commit as the log holds it.
pub struct WalRecord {
    pub version: u64,
    pub changes: Vec<WalChange>,
    pub marks: Vec<WalMark>,
}

#[verifier::ext_equal]
pub struct WalView {
    pub version: u64,
    pub changes: Seq<WalChangeView>,
    pub marks: Seq<WalMarkView>,
}

impl View for WalRecord {
    type V = WalView;

    open spec fn view(&self) -> WalView {
        WalView { version: self.version, changes: model::views(self.changes@), marks: model::views(self.marks@) }
    }
}

pub open spec fn table_changes(t: StagedView, n: int) -> Seq<WalChangeView>
    decreases n,
{
    if n <= 0 {
        Seq::empty()
    } else {
        table_changes(t, n - 1).push(
            WalChangeView { table: t.name, id: t.changes[n - 1].id, payload: t.changes[n - 1].payload },
        )
    }
}

/// The changes of the first `n` tables.
pub open spec fn all_changes(s: Seq<StagedView>, n: int) -> Seq<WalChangeView>
    decreases n,
{
    if n <= 0 {
        Seq::empty()
    } else {
        all_changes(s, n - 1) + table_changes(s[n - 1], s[n - 1].changes.len() as int)
    }
}

pub open spec fn has_identity(t: TableView) -> bool {
    exists|i: int| 0 <= i < t.columns.len() && (#[trigger] t.columns[i]).identity
}

/// The identity marks of the first `n` tables.
pub open spec fn marks_of(st: &State, s: Seq<StagedView>, n: int) -> Seq<WalMarkView>
    decreases n,
{
    if n <= 0 {
        Seq::empty()
    } else {
        let t = s[n - 1];
        let key = encode_utf8(t.name);
        if has_identity(t.schema) && st.identities@.contains_key(key) {
            marks_of(st, s, n - 1).push(WalMarkView { table: t.name, value: st.identities@[key].value })
        } else {
            marks_of(st, s, n - 1)
        }
    }
}

/// The record of a commit.
pub open spec fn record_view(st: &State, s: Seq<StagedView>, version: u64) -> WalView {
    WalView { version, changes: all_changes(s, s.len() as int), marks: marks_of(st, s, s.len() as int) }
}

pub fn table_has_identity(schema: &TableSchema) -> (r: bool)
    ensures
        r == has_identity(schema@),
{
    let mut i: usize = 0;
    while i < schema.columns.len()
        invariant
            i <= schema.columns@.len(),
            forall|j: int| 0 <= j < i ==> !(#[trigger] schema@.columns[j]).identity,
        decreases schema.columns@.len() - i,
    {
        assert(schema@.columns[i as int] == schema.columns@[i as int]@);
        if schema.columns[i].identity {
            return true;
        }
        i = i + 1;
    }
    false
}

/// The log record of a commit.
pub fn encode_commit(st: &State, version: u64, staged: &Vec<PreparedTable>) -> (r: WalRecord)
    requires
        st.wf(),
    ensures
        r@ == record_view(st, model::views(staged@), version),
{
    let ghost all = model::views(staged@);
    let mut changes: Vec<WalChange> = Vec::new();
    let mut marks: Vec<WalMark> = Vec::new();
    let mut i: usize = 0;
    assert(model::views(changes@) =~= Seq::<WalChangeView>::empty());
    assert(model::views(marks@) =~= Seq::<WalMarkView>::empty());
    while i < staged.len()
        invariant
            st.wf(),
            all == model::views(staged@),
            i <= staged@.len(),
            model::views(changes@) == all_changes(all, i as int),
            model::views(marks@) == marks_of(st, all, i as int),
        decreases staged@.len() - i,
    {
        let t = &staged[i];
        assert(all[i as int] == t@);
        let ghost start = model::views(changes@);
        let mut j: usize = 0;
        assert(start + table_changes(t@, 0) =~= start);
        while j < t.changes.len()
            invariant
                i < staged@.len(),
                *t == staged@[i as int],
                j <= t.changes@.len(),
                model::views(changes@) == start + table_changes(t@, j as int),
            decreases t.changes@.len() - j,
        {
            let c = &t.changes[j];
            assert(t@.changes[j as int] == c@);
            let payload: Option<Arc<Vec<u8>>> = match &c.payload {
                Some(p) => Some(share(p)),
                None => None,
            };
            let ghost before = model::views(changes@);
            changes.push(WalChange { table: t.name.clone(), id: c.id.clone(), payload });
            proof {
                let last = changes@.last()@;
                assert(model::views(changes@) =~= before.push(last));
                assert(before.push(last) =~= start + table_changes(t@, j + 1));
            }
            j = j + 1;
        }
        if table_has_identity(&t.schema) {
            match st.identities.get(t.name.as_str().as_bytes()) {
                Some(mark) => {
                    let ghost before = model::views(marks@);
                    marks.push(WalMark { table: t.name.clone(), value: mark.value });
                    assert(model::views(marks@) =~= before.push(marks@.last()@));
                },
                None => {},
            }
        }
        i = i + 1;
    }
    WalRecord { version, changes, marks }
}

} // verus!
