//! First committer wins: what an accepted commit says of the versions of the
//! records it changes, and when a commit is refused for them.

use crate::batch::{self, Batch};
use crate::commit::{self, Validated};
use crate::error::ErrorView;
use crate::model;
use crate::payload;
use crate::prepare::{self, PreparedCommit, StagedTable};
use crate::primary;
use crate::publish::{Previous, PreviousView};
use crate::record::{self, RecordView};
use crate::schema::{self, TableView};
use crate::segment;
use crate::staged::{ChangeView, PreparedChange, PreparedTable};
use crate::state::State;
use crate::value::{self, ColumnType};
use crate::version::VersionView;
use vstd::prelude::*;
use vstd::string::*;
use vstd::utf8::*;

verus! {

/// Some version of the record, a deletion or not, was committed after the
/// snapshot; what is older than the table itself does not count.
pub open spec fn changed_since(st: &State, t: TableView, id: Seq<char>, snapshot: u64) -> bool {
    st.versions(t.name, encode_utf8(id)) matches Ok(s) && exists|k: int|
        0 <= k < s.len() && (#[trigger] s[k]).version > snapshot && s[k].version > t.epoch
}

/// The version is the newest that the record has, and counts for the table.
pub open spec fn is_newest(st: &State, t: TableView, id: Seq<char>, v: VersionView) -> bool {
    st.versions(t.name, encode_utf8(id)) matches Ok(s) && s.contains(v) && v.version > t.epoch && forall|k: int|
        0 <= k < s.len() ==> (#[trigger] s[k]).version <= v.version
}

/// A table is found under its own name.
pub proof fn lemma_named(st: &State, name: Seq<char>)
    ensures
        st.table_view(name) matches Some(t) ==> t.name == name,
{
    let names = schema::table_names(st.catalog@);
    model::lemma_find(names, name);
}

/// The newest version of a record, over its versions.
pub proof fn lemma_newest_version(st: &State, t: TableView, id: Seq<char>, snapshot: u64)
    requires
        st.table_view(t.name) == Some(t),
    ensures
        match st.latest(t.name, encode_utf8(id)) {
            Err(_) => st.versions(t.name, encode_utf8(id)) is Err,
            Ok(None) => st.versions(t.name, encode_utf8(id)) is Ok && !changed_since(st, t, id, snapshot),
            Ok(Some(v)) => is_newest(st, t, id, v) && (changed_since(st, t, id, snapshot) <==> v.version > snapshot),
        },
{
    if let Ok(s) = st.versions(t.name, encode_utf8(id)) {
        primary::lemma_newest_of(s, u64::MAX);
        if let Some(v) = primary::newest_of(s, u64::MAX) {
            let k = s.index_of(v);
            assert(s[k] == v);
            if v.version > snapshot && v.version > t.epoch {
                assert(s[k].version > snapshot);
            }
        }
    }
}

/// What an accepted change says of its record: nothing changed it after the
/// snapshot, and then the change is committed as it was staged; or the change was
/// replayed over the newest version of the record, which is no deletion, and then
/// what the replay made is committed.
pub open spec fn change_stands(st: &State, t: TableView, c: PreparedChange, snapshot: u64, done: ChangeView) -> bool {
    if !changed_since(st, t, c.id@, snapshot) {
        done == c@
    } else {
        &&& c.replay is Some
        &&& exists|v: VersionView| #[trigger] is_newest(st, t, c.id@, v) && !v.kind.is_tombstone() && v.version == c.replay->0.version
        &&& forall|k: int| 0 <= k < t.columns.len() ==> (#[trigger] t.columns[k]).ty != ColumnType::Blob
        &&& c.replay->0.outcome is Some
        &&& done == (ChangeView {
            id: c.id@,
            operation: Some(c.replay->0.outcome->0.record@),
            payload: Some(c.replay->0.outcome->0.payload@),
        })
    }
}

proof fn lemma_change_stands(st: &State, staged: Seq<PreparedTable>, checked: Seq<Vec<Previous>>, snapshot: u64, i: int, j: int)
    requires
        commit::all_checked(st, staged, checked, snapshot),
        0 <= i < staged.len(),
        0 <= j < staged[i].changes@.len(),
    ensures
        staged[i].schema@.name == staged[i].name@,
        st.versions(staged[i].name@, encode_utf8(staged[i].changes@[j].id@)) is Ok,
        change_stands(
            st,
            staged[i].schema@,
            staged[i].changes@[j],
            snapshot,
            commit::final_tables(st, staged, checked, snapshot)[i].changes[j],
        ),
{
    let t = staged[i].schema@;
    let c = staged[i].changes@[j];
    lemma_named(st, staged[i].name@);
    assert(commit::table_checked(st, staged[i], checked[i]@, snapshot));
    assert(commit::checked_change(st, t, c, snapshot) == Ok::<PreviousView, ErrorView>(checked[i]@[j]@));
    lemma_newest_version(st, t, c.id@, snapshot);
    if changed_since(st, t, c.id@, snapshot) {
        let v = st.latest(t.name, encode_utf8(c.id@))->Ok_0->0;
        assert(is_newest(st, t, c.id@, v));
    }
}

/// First committer wins: of every change of an accepted commit that is not
/// replayed, the newest version of the record is not past the snapshot, nor is any
/// other that the table counts, deletions included; and every change stands as
/// `change_stands` says.
pub proof fn lemma_first_committer_wins(st: &State, v: Validated, staged: Seq<PreparedTable>, snapshot: u64, i: int, j: int)
    requires
        v.stands_for(st, staged, snapshot),
        0 <= i < staged.len(),
        0 <= j < staged[i].changes@.len(),
    ensures
        ({
            let t = staged[i].schema@;
            let c = staged[i].changes@[j];
            &&& st.versions(t.name, encode_utf8(c.id@)) is Ok
            &&& c.replay is None ==> (st.latest(t.name, encode_utf8(c.id@)) matches Ok(Some(newest)) ==> newest.version <= snapshot)
            &&& c.replay is None ==> forall|k: int|
                0 <= k < st.versions(t.name, encode_utf8(c.id@))->Ok_0.len() ==> {
                    let e = #[trigger] st.versions(t.name, encode_utf8(c.id@))->Ok_0[k];
                    e.version <= snapshot || e.version <= t.epoch
                }
            &&& change_stands(st, t, c, snapshot, v.staged@[i]@.changes[j])
        }),
{
    lemma_change_stands(st, staged, v.previous@, snapshot, i, j);
    lemma_named(st, staged[i].name@);
    assert(commit::table_checked(st, staged[i], v.previous@[i]@, snapshot));
    lemma_newest_version(st, staged[i].schema@, staged[i].changes@[j].id@, snapshot);
    assert(model::views(v.staged@)[i] == v.staged@[i]@);
}

/// The same of every member of a batch that joined it.
pub proof fn lemma_first_committer_wins_in_batch(st: &State, m: Seq<PreparedCommit>, b: Batch, q: int, i: int, j: int)
    requires
        batch::batch_stands(st, m, b),
        0 <= q < b.members@.len(),
        0 <= b.members@[q].place < m.len(),
        0 <= i < m[b.members@[q].place as int].staged@.len(),
        0 <= j < m[b.members@[q].place as int].staged@[i].changes@.len(),
    ensures
        ({
            let p = m[b.members@[q].place as int];
            let t = p.staged@[i].schema@;
            let c = p.staged@[i].changes@[j];
            &&& st.versions(t.name, encode_utf8(c.id@)) is Ok
            &&& c.replay is None ==> (st.latest(t.name, encode_utf8(c.id@)) matches Ok(Some(newest)) ==> newest.version <= p.snapshot)
            &&& c.replay is None ==> forall|k: int|
                0 <= k < st.versions(t.name, encode_utf8(c.id@))->Ok_0.len() ==> {
                    let e = #[trigger] st.versions(t.name, encode_utf8(c.id@))->Ok_0[k];
                    e.version <= p.snapshot || e.version <= t.epoch
                }
            &&& change_stands(st, t, c, p.snapshot, b.members@[q].validated.staged@[i]@.changes[j])
        }),
{
    let p = m[b.members@[q].place as int];
    let one = b.members@[q];
    lemma_change_stands(st, p.staged@, one.validated.previous@, p.snapshot, i, j);
    lemma_named(st, p.staged@[i].name@);
    assert(commit::table_checked(st, p.staged@[i], one.validated.previous@[i]@, p.snapshot));
    lemma_newest_version(st, p.staged@[i].schema@, p.staged@[i].changes@[j].id@, p.snapshot);
    assert(model::views(one.validated.staged@)[i] == one.validated.staged@[i]@);
}

/// A commit is refused as a conflict over a record only where the record was
/// changed after the snapshot and the change could not be replayed.
pub proof fn lemma_conflict_has_cause(st: &State, staged: Seq<PreparedTable>, snapshot: u64, m: Seq<char>) -> (r: (int, int))
    requires
        commit::check_error(st, staged, snapshot, ErrorView::Conflict(m)),
        forall|i: int| 0 <= i < staged.len() ==> st.table_view((#[trigger] staged[i]).name@) == Some(staged[i].schema@),
    ensures
        0 <= r.0 < staged.len(),
        0 <= r.1 < staged[r.0].changes@.len(),
        changed_since(st, staged[r.0].schema@, staged[r.0].changes@[r.1].id@, snapshot),
        m == staged[r.0].name@ + "/"@ + staged[r.0].changes@[r.1].id@ + " changed after this transaction began"@,
{
    let (i, j) = commit::lemma_fault_place(st, staged, snapshot, staged.len() as int);
    let t = staged[i].schema@;
    let c = staged[i].changes@[j];
    lemma_named(st, staged[i].name@);
    lemma_newest_version(st, t, c.id@, snapshot);
    if let Ok(Some(v)) = st.latest(t.name, encode_utf8(c.id@)) {
        lemma_reading_is_no_conflict(st, v);
    }
    (i, j)
}

proof fn lemma_reading_is_no_conflict(st: &State, v: VersionView)
    ensures
        segment::record_of(st.images(), st.blobs@, v.kind) matches Err(e) ==> !(e is Conflict),
{
    if let Ok(Some(p)) = segment::payload_of(st.images(), v.kind) {
        if let Ok(n) = payload::count_of(p) {
            lemma_decoding_is_no_conflict(p, 2, n, st.blobs@, Map::empty());
        }
    }
}

proof fn lemma_decoding_is_no_conflict(buf: Seq<u8>, pos: int, count: nat, blobs: Map<Seq<u8>, Seq<u8>>, done: RecordView)
    ensures
        record::record_from(buf, pos, count, blobs, done) matches Err(e) ==> !(e is Conflict),
    decreases count,
{
    if count > 0 {
        if let Ok((name, at)) = payload::text_name_at(buf, pos) {
            if let Ok((v, end)) = value::field_at(buf, at) {
                if let Ok(x) = record::resolved(v, blobs) {
                    lemma_decoding_is_no_conflict(buf, end, (count - 1) as nat, blobs, done.insert(name, x));
                }
            }
        }
    }
}

/// A commit that would change a record which was changed after the snapshot,
/// and which has no replay for it, is not accepted; where the record is the only
/// one that the commit changes and its table is as it was, the error is the
/// conflict over the record, whatever was done to the record, a deletion
/// included.
pub proof fn lemma_conflict_is_told(st: &State, staged: Seq<PreparedTable>, snapshot: u64, i: int, j: int)
    requires
        0 <= i < staged.len(),
        0 <= j < staged[i].changes@.len(),
        st.table_view(staged[i].name@) == Some(staged[i].schema@),
        changed_since(st, staged[i].schema@, staged[i].changes@[j].id@, snapshot),
        staged[i].changes@[j].replay is None,
    ensures
        forall|v: Validated| !(#[trigger] v.stands_for(st, staged, snapshot)),
        staged.len() == 1 && staged[i].changes@.len() == 1 ==> commit::check_error(
            st,
            staged,
            snapshot,
            ErrorView::Conflict(staged[i].name@ + "/"@ + staged[i].changes@[j].id@ + " changed after this transaction began"@),
        ),
{
    let t = staged[i].schema@;
    let c = staged[i].changes@[j];
    lemma_named(st, staged[i].name@);
    lemma_newest_version(st, t, c.id@, snapshot);
    assert forall|v: Validated| !(#[trigger] v.stands_for(st, staged, snapshot)) by {
        if v.stands_for(st, staged, snapshot) {
            lemma_first_committer_wins(st, v, staged, snapshot, i, j);
        }
    }
    if staged.len() == 1 && staged[i].changes@.len() == 1 {
        reveal_with_fuel(commit::tables_fault, 2);
        reveal_with_fuel(commit::changes_fault, 2);
    }
}

/// What a transaction is refused for while it is prepared: a change without a
/// replay, to a table with equality or text indexes, of a record that was changed
/// after the snapshot; and where it is prepared, no such change is left.
pub proof fn lemma_early_conflict(st: &State, snapshot: u64, t: StagedTable, j: int)
    requires
        0 <= j < t.operations@.len(),
        st.table_view(t.name@) == Some(t.schema@),
        t.schema@.indexes.len() > 0 || t.schema@.text_indexes.len() > 0,
        st.versions(t.name@, encode_utf8(t.operations@[j].id@)) is Ok,
    ensures
        ({
            let c = t.operations@[j];
            let e = ErrorView::Conflict(t.name@ + "/"@ + c.id@ + " changed after this transaction began"@);
            (c.replay is None && changed_since(st, t.schema@, c.id@, snapshot)) <==> prepare::early_staged_error(st, t, j, snapshot)
                == Some(e)
        }),
{
    let c = t.operations@[j];
    lemma_named(st, t.name@);
    lemma_newest_version(st, t.schema@, c.id@, snapshot);
    if let Ok(Some(v)) = st.latest(t.name@, encode_utf8(c.id@)) {
        lemma_reading_is_no_conflict(st, v);
    }
}

} // verus!
