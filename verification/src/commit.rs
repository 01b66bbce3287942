//! Validating a transaction against the committed state.

use crate::error::{table_not_found, Error, ErrorView};
use crate::foreign::{self, validate_foreign_keys};
use crate::model::{self, Comparable};
use crate::primary;
use crate::publish::{self, Previous, PreviousView};
use crate::record::{Record, RecordView};
use crate::schema::{TableSchema, TableView};
use crate::segment::{self, read_record_kind};
use crate::staged::{self, borrow_all, ChangeView, PreparedChange, PreparedTable, StagedView};
use crate::state::State;
use crate::unique::{self, validate_unique};
use crate::value::ColumnType;
use crate::version::{VersionEntry, VersionView};
use vstd::prelude::*;
use vstd::string::*;
use vstd::utf8::*;

verus! {

// ---- One change -------------------------------------------------------------

pub open spec fn has_blob_column(t: TableView) -> bool {
    exists|i: int| 0 <= i < t.columns.len() && (#[trigger] t.columns[i]).ty == ColumnType::Blob
}

/// What the change comes to over a version that was committed after the
/// transaction's snapshot; `None` where the conflict stands. A deleted record
/// cannot be replayed over, nor one of a table with blob columns.
pub open spec fn rebased(t: TableView, c: PreparedChange, latest: VersionView) -> Option<(RecordView, Seq<u8>)> {
    match c.replay {
        None => None,
        Some(r) => if latest.kind.is_tombstone() || has_blob_column(t) || r.version != latest.version {
            None
        } else {
            match r.outcome {
                Some(p) => Some((p.record@, p.payload@)),
                None => None,
            }
        },
    }
}

/// The committed record that indexes must let go of, where the table has
/// indexes that need it.
pub open spec fn prior_of(st: &State, t: TableView, entry: Option<VersionView>) -> Result<Option<RecordView>, ErrorView> {
    match entry {
        Some(v) => if !v.kind.is_tombstone() && (t.indexes.len() > 0 || t.text_indexes.len() > 0) {
            match segment::record_of(st.images(), st.blobs@, v.kind) {
                Ok(rec) => Ok(Some(rec)),
                Err(e) => Err(e),
            }
        } else {
            Ok(None)
        },
        None => Ok(None),
    }
}

pub open spec fn changed_message(table: Seq<char>, id: Seq<char>) -> ErrorView {
    ErrorView::Conflict(table + "/"@ + id + " changed after this transaction began"@)
}

/// Whether the record changed after the snapshot.
pub open spec fn moved_on(entry: Option<VersionView>, snapshot: u64) -> bool {
    entry matches Some(v) && v.version > snapshot
}

/// What a change supersedes, or why it cannot be committed.
pub open spec fn checked_change(st: &State, t: TableView, c: PreparedChange, snapshot: u64) -> Result<PreviousView, ErrorView> {
    match st.latest(t.name, encode_utf8(c.id@)) {
        Err(m) => Err(ErrorView::Corrupt(m)),
        Ok(entry) => if moved_on(entry, snapshot) && rebased(t, c, entry->0) is None {
            Err(changed_message(t.name, c.id@))
        } else {
            match prior_of(st, t, entry) {
                Err(e) => Err(e),
                Ok(prior) => Ok(PreviousView { entry, prior }),
            }
        },
    }
}

/// The change that is committed: as it was staged, or replayed.
pub open spec fn final_change(t: TableView, c: PreparedChange, p: PreviousView, snapshot: u64) -> ChangeView {
    if moved_on(p.entry, snapshot) {
        let r = rebased(t, c, p.entry->0)->0;
        ChangeView { id: c.id@, operation: Some(r.0), payload: Some(r.1) }
    } else {
        c@
    }
}

fn table_has_blob(schema: &TableSchema) -> (r: bool)
    ensures
        r == has_blob_column(schema@),
{
    let mut i: usize = 0;
    while i < schema.columns.len()
        invariant
            i <= schema.columns@.len(),
            forall|j: int| 0 <= j < i ==> (#[trigger] schema@.columns[j]).ty != ColumnType::Blob,
        decreases schema.columns@.len() - i,
    {
        assert(schema@.columns[i as int] == schema.columns@[i as int]@);
        if schema.columns[i].ty == ColumnType::Blob {
            return true;
        }
        i = i + 1;
    }
    false
}

/// Whether a change can be replayed over a newer version of its record.
pub fn can_rebase(schema: &TableSchema, change: &PreparedChange, latest: &VersionEntry) -> (r: bool)
    ensures
        r == (rebased(schema@, *change, latest@) is Some),
{
    match &change.replay {
        None => false,
        Some(replay) => !latest.is_tombstone() && !table_has_blob(schema) && replay.version == latest.version
            && replay.outcome.is_some(),
    }
}

/// The records that the first steps make of a record, one after another.
pub open spec fn folded<F: Fn(&str, &Record) -> Result<Option<Record>, Error>>(steps: Seq<F>, id: &str, trace: Seq<Record>) -> bool {
    &&& 0 < trace.len() <= steps.len() + 1
    &&& forall|k: int| 0 <= k < trace.len() - 1 ==> call_ensures(
        #[trigger] steps[k],
        (id, &trace[k]),
        Ok::<Option<Record>, Error>(Some(trace[k + 1])),
    )
}

/// The step after the first ones gives nothing, or fails.
pub open spec fn refuses<F: Fn(&str, &Record) -> Result<Option<Record>, Error>>(steps: Seq<F>, id: &str, trace: Seq<Record>) -> bool {
    &&& folded(steps, id, trace)
    &&& trace.len() <= steps.len()
    &&& exists|r: Result<Option<Record>, Error>|
        (r is Err || r->Ok_0 is None) && #[trigger] call_ensures(steps[trace.len() - 1], (id, &trace.last()), r)
}

/// The steps can be asked about every record, and make only sound ones.
pub open spec fn steps_ok<F: Fn(&str, &Record) -> Result<Option<Record>, Error>>(steps: Seq<F>, id: &str) -> bool {
    &&& forall|k: int, rec: &Record| 0 <= k < steps.len() && rec.wf() ==> #[trigger] call_requires(steps[k], (id, rec))
    &&& forall|k: int, rec: &Record, out: Record|
        0 <= k < steps.len() && #[trigger] call_ensures(steps[k], (id, rec), Ok::<Option<Record>, Error>(Some(out))) ==> out.wf()
}

/// What the steps of a delta update come to over a record.
pub open spec fn steps_outcome<F: Fn(&str, &Record) -> Result<Option<Record>, Error>>(
    steps: Seq<F>,
    id: &str,
    first: RecordView,
    r: Option<Record>,
) -> bool {
    match r {
        Some(last) => exists|trace: Seq<Record>|
            #[trigger] folded(steps, id, trace) && trace[0]@ == first && trace.len() == steps.len() + 1 && trace.last() == last,
        None => exists|trace: Seq<Record>| #[trigger] refuses(steps, id, trace) && trace[0]@ == first,
    }
}

/// Replay a delta update over the latest version of its record: each of its
/// steps over what the one before it made. It cannot be replayed where the record
/// was deleted, where the table has a blob column, and where a step gives nothing
/// or fails.
pub fn rebase_change<F: Fn(&str, &Record) -> Result<Option<Record>, Error>>(
    st: &State,
    schema: &TableSchema,
    id: &str,
    steps: &Vec<F>,
    latest: &VersionEntry,
) -> (r: Result<Option<Record>, Error>)
    requires
        st.wf(),
        steps_ok(steps@, id),
    ensures
        if latest@.kind.is_tombstone() || has_blob_column(schema@) {
            r is Ok && r->Ok_0 is None
        } else {
            match segment::record_of(st.images(), st.blobs@, latest@.kind) {
                Err(e) => r is Err && r->Err_0@ == e,
                Ok(first) => r matches Ok(out) && steps_outcome(steps@, id, first, out) && (out matches Some(rec) ==> rec.wf()),
            }
        },
{
    if latest.is_tombstone() || table_has_blob(schema) {
        return Ok(None);
    }
    let mut record = match read_record_kind(&st.blobs, &st.segments, &latest.kind) {
        Ok(rec) => rec,
        Err(e) => {
            return Err(e);
        },
    };
    let ghost first = record@;
    let ghost mut trace: Seq<Record> = seq![record];
    let mut k: usize = 0;
    while k < steps.len()
        invariant
            steps_ok(steps@, id),
            k <= steps@.len(),
            record.wf(),
            trace.len() == k + 1,
            trace.last() == record,
            trace[0]@ == first,
            folded(steps@, id, trace),
            segment::record_of(st.images(), st.blobs@, latest@.kind) == Ok::<RecordView, ErrorView>(first),
            !(latest@.kind.is_tombstone() || has_blob_column(schema@)),
        decreases steps@.len() - k,
    {
        let step = &steps[k];
        let out = step(id, &record);
        let ghost was = trace;
        match out {
            Ok(Some(next)) => {
                proof {
                    trace = was.push(next);
                    assert forall|q: int| 0 <= q < trace.len() - 1 implies call_ensures(
                        #[trigger] steps@[q],
                        (id, &trace[q]),
                        Ok::<Option<Record>, Error>(Some(trace[q + 1])),
                    ) by {
                        if q < was.len() - 1 {
                            assert(trace[q] == was[q] && trace[q + 1] == was[q + 1]);
                        }
                    }
                }
                record = next;
            },
            _ => {
                assert(refuses(steps@, id, trace)) by {
                    assert(call_ensures(steps@[trace.len() - 1], (id, &trace.last()), out));
                }
                return Ok(None);
            },
        }
        k = k + 1;
    }
    Ok(Some(record))
}

/// Find out what a change supersedes.
fn check_change(st: &State, schema: &TableSchema, change: &PreparedChange, snapshot: u64) -> (r: Result<Previous, Error>)
    requires
        st.inv(),
        st.table_view(schema@.name) == Some(schema@),
    ensures
        match checked_change(st, schema@, *change, snapshot) {
            Ok(p) => r is Ok && r->Ok_0@ == p && (r->Ok_0.prior matches Some(rec) ==> rec.wf()),
            Err(e) => r is Err && r->Err_0@ == e,
        },
{
    let table = schema.name.as_str();
    let id = change.id.as_str();
    let entry: Option<VersionEntry> = if st.id_is_above_high_watermark(table, id) {
        None
    } else {
        match st.latest_owned(table, id) {
            Ok(entry) => entry,
            Err(e) => {
                return Err(e);
            },
        }
    };
    assert(st.latest(schema@.name, encode_utf8(id@)) == Ok::<Option<VersionView>, Seq<char>>(primary::option_view(entry)));
    let mut prior: Option<Record> = None;
    match &entry {
        None => {},
        Some(v) => {
            if v.version > snapshot {
                if !can_rebase(schema, change, v) {
                    return Err(
                        Error::Conflict(table.to_owned().concat("/").concat(id).concat(" changed after this transaction began")),
                    );
                }
            }
            if !v.is_tombstone() && (schema.indexes.len() > 0 || schema.text_indexes.len() > 0) {
                match read_record_kind(&st.blobs, &st.segments, &v.kind) {
                    Ok(rec) => {
                        prior = Some(rec);
                    },
                    Err(e) => {
                        return Err(e);
                    },
                }
            }
        },
    }
    Ok(Previous { entry, prior })
}

// ---- All changes of a transaction -------------------------------------------

pub open spec fn schema_changed(name: Seq<char>) -> ErrorView {
    ErrorView::Conflict("schema for "@ + name + " changed while the transaction was preparing"@)
}

/// Why the changes of a table cannot be committed: it is gone, or it is no longer
/// what it was.
pub open spec fn table_gone(st: &State, t: PreparedTable, e: ErrorView) -> bool {
    match st.table_view(t.name@) {
        None => e == ErrorView::TableNotFound(t.name@),
        Some(now) => now != t.schema@ && e == schema_changed(t.name@),
    }
}

/// The checks of a table were made.
pub open spec fn table_checked(st: &State, t: PreparedTable, checked: Seq<Previous>, snapshot: u64) -> bool {
    &&& checked.len() == t.changes@.len()
    &&& forall|j: int| 0 <= j < checked.len() ==> {
        &&& checked_change(st, t.schema@, t.changes@[j], snapshot) == Ok::<PreviousView, ErrorView>((#[trigger] checked[j])@)
        &&& checked[j].prior matches Some(rec) ==> rec.wf()
    }
}

pub open spec fn all_checked(st: &State, staged: Seq<PreparedTable>, checked: Seq<Vec<Previous>>, snapshot: u64) -> bool {
    &&& checked.len() == staged.len()
    &&& forall|i: int| 0 <= i < staged.len() ==> {
        &&& st.table_view((#[trigger] staged[i]).name@) == Some(staged[i].schema@)
        &&& table_checked(st, staged[i], checked[i]@, snapshot)
    }
}

/// What is wrong with the first of the first `n` changes of a table that cannot
/// be committed.
pub open spec fn changes_fault(st: &State, t: PreparedTable, snapshot: u64, n: int) -> Option<ErrorView>
    decreases n,
{
    if n <= 0 {
        None
    } else {
        match changes_fault(st, t, snapshot, n - 1) {
            Some(e) => Some(e),
            None => match checked_change(st, t.schema@, t.changes@[n - 1], snapshot) {
                Ok(_) => None,
                Err(e) => Some(e),
            },
        }
    }
}

/// What is wrong with a table and its changes.
pub open spec fn table_fault(st: &State, t: PreparedTable, snapshot: u64) -> Option<ErrorView> {
    match st.table_view(t.name@) {
        None => Some(ErrorView::TableNotFound(t.name@)),
        Some(now) => if now != t.schema@ {
            Some(schema_changed(t.name@))
        } else {
            changes_fault(st, t, snapshot, t.changes@.len() as int)
        },
    }
}

/// What is wrong with the first of the first `n` tables.
pub open spec fn tables_fault(st: &State, staged: Seq<PreparedTable>, snapshot: u64, n: int) -> Option<ErrorView>
    decreases n,
{
    if n <= 0 {
        None
    } else {
        match tables_fault(st, staged, snapshot, n - 1) {
            Some(e) => Some(e),
            None => table_fault(st, staged[n - 1], snapshot),
        }
    }
}

/// Why a transaction cannot be committed over the records it changes: the first
/// reason, table by table and change by change.
pub open spec fn check_error(st: &State, staged: Seq<PreparedTable>, snapshot: u64, e: ErrorView) -> bool {
    tables_fault(st, staged, snapshot, staged.len() as int) == Some(e)
}

proof fn lemma_changes_fault(st: &State, t: PreparedTable, snapshot: u64, n: int)
    requires
        0 <= n <= t.changes@.len(),
    ensures
        changes_fault(st, t, snapshot, n) matches Some(e) ==> changes_fault(st, t, snapshot, t.changes@.len() as int) == Some(e),
    decreases t.changes@.len() - n,
{
    if n < t.changes@.len() {
        lemma_changes_fault(st, t, snapshot, n + 1);
    }
}

proof fn lemma_tables_fault(st: &State, staged: Seq<PreparedTable>, snapshot: u64, n: int)
    requires
        0 <= n <= staged.len(),
    ensures
        tables_fault(st, staged, snapshot, n) matches Some(e) ==> tables_fault(st, staged, snapshot, staged.len() as int) == Some(e),
    decreases staged.len() - n,
{
    if n < staged.len() {
        lemma_tables_fault(st, staged, snapshot, n + 1);
    }
}

/// One change of a table that is as it was cannot be committed.
pub open spec fn change_fails(st: &State, staged: Seq<PreparedTable>, i: int, j: int, snapshot: u64, e: ErrorView) -> bool {
    &&& 0 <= i < staged.len()
    &&& 0 <= j < staged[i].changes@.len()
    &&& st.table_view(staged[i].name@) == Some(staged[i].schema@)
    &&& checked_change(st, staged[i].schema@, staged[i].changes@[j], snapshot) == Err::<PreviousView, ErrorView>(e)
}

/// Where a transaction over tables that are as they were fails.
pub proof fn lemma_fault_place(st: &State, staged: Seq<PreparedTable>, snapshot: u64, n: int) -> (r: (int, int))
    requires
        0 <= n <= staged.len(),
        tables_fault(st, staged, snapshot, n) is Some,
        forall|i: int| 0 <= i < staged.len() ==> st.table_view((#[trigger] staged[i]).name@) == Some(staged[i].schema@),
    ensures
        change_fails(st, staged, r.0, r.1, snapshot, tables_fault(st, staged, snapshot, n)->0),
    decreases n,
{
    if tables_fault(st, staged, snapshot, n - 1) is Some {
        lemma_fault_place(st, staged, snapshot, n - 1)
    } else {
        assert(st.table_view(staged[n - 1].name@) == Some(staged[n - 1].schema@));
        let j = lemma_change_place(st, staged[n - 1], snapshot, staged[n - 1].changes@.len() as int);
        (n - 1, j)
    }
}

proof fn lemma_change_place(st: &State, t: PreparedTable, snapshot: u64, n: int) -> (j: int)
    requires
        0 <= n <= t.changes@.len(),
        changes_fault(st, t, snapshot, n) is Some,
    ensures
        0 <= j < n,
        checked_change(st, t.schema@, t.changes@[j], snapshot) == Err::<PreviousView, ErrorView>(changes_fault(st, t, snapshot, n)->0),
    decreases n,
{
    if changes_fault(st, t, snapshot, n - 1) is Some {
        lemma_change_place(st, t, snapshot, n - 1)
    } else {
        n - 1
    }
}

/// A transaction whose changes were all checked has nothing wrong with it.
pub proof fn lemma_checked_sound(st: &State, staged: Seq<PreparedTable>, checked: Seq<Vec<Previous>>, snapshot: u64, n: int)
    requires
        all_checked(st, staged, checked, snapshot),
        0 <= n <= staged.len(),
    ensures
        tables_fault(st, staged, snapshot, n) is None,
    decreases n,
{
    if n > 0 {
        lemma_checked_sound(st, staged, checked, snapshot, n - 1);
        assert(st.table_view(staged[n - 1].name@) == Some(staged[n - 1].schema@));
        lemma_checked_changes(st, staged[n - 1], checked[n - 1]@, snapshot, staged[n - 1].changes@.len() as int);
    }
}

proof fn lemma_checked_changes(st: &State, t: PreparedTable, checked: Seq<Previous>, snapshot: u64, n: int)
    requires
        table_checked(st, t, checked, snapshot),
        0 <= n <= t.changes@.len(),
    ensures
        changes_fault(st, t, snapshot, n) is None,
    decreases n,
{
    if n > 0 {
        lemma_checked_changes(st, t, checked, snapshot, n - 1);
        assert(checked_change(st, t.schema@, t.changes@[n - 1], snapshot) == Ok::<PreviousView, ErrorView>(checked[n - 1]@));
    }
}

fn check_schema(st: &State, t: &PreparedTable) -> (r: Result<(), Error>)
    ensures
        r is Ok <==> st.table_view(t.name@) == Some(t.schema@),
        r matches Err(e) ==> table_gone(st, *t, e@),
{
    match st.catalog.table(t.name.as_str()) {
        None => Err(table_not_found(t.name.as_str())),
        Some(found) => if found.same(&t.schema) {
            Ok(())
        } else {
            Err(
                Error::Conflict(
                    "schema for ".to_owned().concat(t.name.as_str()).concat(" changed while the transaction was preparing"),
                ),
            )
        },
    }
}

/// Check every change of a transaction against the committed records.
pub fn check_tables(st: &State, staged: &Vec<PreparedTable>, snapshot: u64) -> (r: Result<Vec<Vec<Previous>>, Error>)
    requires
        st.inv(),
    ensures
        match r {
            Ok(checked) => all_checked(st, staged@, checked@, snapshot),
            Err(e) => check_error(st, staged@, snapshot, e@),
        },
{
    let mut out: Vec<Vec<Previous>> = Vec::new();
    let mut i: usize = 0;
    while i < staged.len()
        invariant
            st.inv(),
            i <= staged@.len(),
            out@.len() == i,
            tables_fault(st, staged@, snapshot, i as int) is None,
            forall|p: int| 0 <= p < i ==> {
                &&& st.table_view((#[trigger] staged@[p]).name@) == Some(staged@[p].schema@)
                &&& table_checked(st, staged@[p], out@[p]@, snapshot)
            },
        decreases staged@.len() - i,
    {
        let t = &staged[i];
        proof {
            lemma_tables_fault(st, staged@, snapshot, i + 1);
        }
        match check_schema(st, t) {
            Ok(()) => {},
            Err(e) => {
                return Err(e);
            },
        }
        proof {
            st.lemma_table(t.name@);
        }
        let mut found: Vec<Previous> = Vec::new();
        let mut j: usize = 0;
        while j < t.changes.len()
            invariant
                st.inv(),
                i < staged@.len(),
                *t == staged@[i as int],
                st.table_view(t.name@) == Some(t.schema@),
                t.schema@.name == t.name@,
                j <= t.changes@.len(),
                found@.len() == j,
                changes_fault(st, *t, snapshot, j as int) is None,
                tables_fault(st, staged@, snapshot, i as int) is None,
                forall|q: int| 0 <= q < j ==> {
                    &&& checked_change(st, t.schema@, t.changes@[q], snapshot) == Ok::<PreviousView, ErrorView>(
                        (#[trigger] found@[q])@,
                    )
                    &&& found@[q].prior matches Some(rec) ==> rec.wf()
                },
            decreases t.changes@.len() - j,
        {
            match check_change(st, &t.schema, &t.changes[j], snapshot) {
                Ok(previous) => {
                    found.push(previous);
                },
                Err(e) => {
                    proof {
                        lemma_changes_fault(st, *t, snapshot, j + 1);
                        lemma_tables_fault(st, staged@, snapshot, i + 1);
                    }
                    return Err(e);
                },
            }
            j = j + 1;
        }
        out.push(found);
        i = i + 1;
    }
    Ok(out)
}

// ---- Replaying --------------------------------------------------------------

/// The table with its changes as they are committed.
pub open spec fn final_table(st: &State, t: PreparedTable, checked: Seq<Previous>, snapshot: u64) -> StagedView {
    StagedView {
        name: t.name@,
        schema: t.schema@,
        changes: Seq::new(
            t.changes@.len(),
            |j: int| final_change(t.schema@, t.changes@[j], checked[j]@, snapshot),
        ),
    }
}

pub open spec fn final_tables(st: &State, staged: Seq<PreparedTable>, checked: Seq<Vec<Previous>>, snapshot: u64) -> Seq<StagedView> {
    Seq::new(staged.len(), |i: int| final_table(st, staged[i], checked[i]@, snapshot))
}

/// Put the replayed record of a change in the place of the staged one.
fn install_replay(change: &mut PreparedChange)
    requires
        old(change).wf(),
        old(change).replay matches Some(r) && r.outcome is Some,
    ensures
        final(change).wf(),
        final(change).id == old(change).id,
        final(change).replay is None,
        final(change)@ == (ChangeView {
            id: old(change).id@,
            operation: Some(old(change).replay->0.outcome->0.record@),
            payload: Some(old(change).replay->0.outcome->0.payload@),
        }),
{
    match change.replay.take() {
        Some(replay) => match replay.outcome {
            Some(replayed) => {
                change.operation = Some(replayed.record);
                change.payload = Some(replayed.payload);
            },
            None => {},
        },
        None => {},
    }
}

/// The changes that must be replayed can be.
pub open spec fn replays_ready(t: PreparedTable, checked: Seq<Previous>, snapshot: u64) -> bool {
    &&& checked.len() == t.changes@.len()
    &&& forall|j: int| 0 <= j < checked.len() && moved_on((#[trigger] checked[j])@.entry, snapshot) ==> can_replay(t.changes@[j])
}

pub open spec fn can_replay(c: PreparedChange) -> bool {
    c.replay matches Some(r) && r.outcome is Some
}

/// The change with its replay in the place of what was staged.
pub open spec fn replayed(c: PreparedChange) -> ChangeView {
    ChangeView {
        id: c.id@,
        operation: Some(c.replay->0.outcome->0.record@),
        payload: Some(c.replay->0.outcome->0.payload@),
    }
}

/// Install the replays of one table.
fn install_table(t: &mut PreparedTable, checked: &Vec<Previous>, snapshot: u64)
    requires
        old(t).wf(),
        replays_ready(*old(t), checked@, snapshot),
    ensures
        final(t).wf(),
        final(t).name == old(t).name,
        final(t).schema == old(t).schema,
        final(t).changes@.len() == old(t).changes@.len(),
        forall|j: int| 0 <= j < old(t).changes@.len() ==> (#[trigger] final(t).changes@[j])@ == (if moved_on(
            checked@[j]@.entry,
            snapshot,
        ) {
            replayed(old(t).changes@[j])
        } else {
            old(t).changes@[j]@
        }),
{
    let ghost start = t.changes@;
    let mut j: usize = 0;
    while j < t.changes.len()
        invariant
            start == old(t).changes@,
            t.name == old(t).name,
            t.schema == old(t).schema,
            t.changes@.len() == start.len(),
            checked@.len() == start.len(),
            forall|q: int| 0 <= q < checked@.len() && moved_on((#[trigger] checked@[q])@.entry, snapshot) ==> can_replay(start[q]),
            forall|q: int|
                0 <= q < start.len() ==> (#[trigger] t.changes@[q]).wf() && staged::replay_stored(t.schema@, t.changes@[q].replay),
            j <= start.len(),
            forall|q: int| j <= q < start.len() ==> #[trigger] t.changes@[q] == start[q],
            forall|q: int| 0 <= q < j ==> (#[trigger] t.changes@[q])@ == (if moved_on(checked@[q]@.entry, snapshot) {
                replayed(start[q])
            } else {
                start[q]@
            }),
        decreases start.len() - j,
    {
        let moved: bool = match &checked[j].entry {
            Some(v) => v.version > snapshot,
            None => false,
        };
        assert(moved == moved_on(checked@[j as int]@.entry, snapshot));
        let ghost now = t.changes@;
        assert(now[j as int] == start[j as int]);
        if moved {
            {
                let c = &mut t.changes[j];
                install_replay(c);
            }
            assert forall|q: int| 0 <= q < start.len() && q != j implies #[trigger] t.changes@[q] == now[q] by {}
        }
        j = j + 1;
    }
}

/// Install the replays of all tables.
fn install_replays(staged: &mut Vec<PreparedTable>, checked: &Vec<Vec<Previous>>, snapshot: u64, Ghost(st): Ghost<&State>)
    requires
        staged::tables_wf(old(staged)@),
        all_checked(st, old(staged)@, checked@, snapshot),
    ensures
        staged::tables_wf(final(staged)@),
        final(staged)@.len() == old(staged)@.len(),
        forall|i: int| 0 <= i < old(staged)@.len() ==> (#[trigger] final(staged)@[i]).changes@.len() == old(staged)@[i].changes@.len(),
        model::views(final(staged)@) == final_tables(st, old(staged)@, checked@, snapshot),
{
    let ghost start = staged@;
    let mut i: usize = 0;
    while i < staged.len()
        invariant
            start == old(staged)@,
            staged@.len() == start.len(),
            all_checked(st, start, checked@, snapshot),
            i <= start.len(),
            forall|p: int| 0 <= p < start.len() ==> (#[trigger] staged@[p]).wf(),
            forall|p: int| i <= p < start.len() ==> #[trigger] staged@[p] == start[p],
            forall|p: int| 0 <= p < i ==> (#[trigger] staged@[p])@ == final_table(st, start[p], checked@[p]@, snapshot),
        decreases start.len() - i,
    {
        let ghost now = staged@;
        let ghost t0 = start[i as int];
        let ghost cs = checked@[i as int]@;
        proof {
            assert(now[i as int] == t0);
            assert(table_checked(st, t0, cs, snapshot));
            assert forall|j: int| 0 <= j < cs.len() && moved_on((#[trigger] cs[j])@.entry, snapshot) implies can_replay(
                t0.changes@[j],
            ) by {
                assert(checked_change(st, t0.schema@, t0.changes@[j], snapshot) is Ok);
            }
        }
        {
            let t = &mut staged[i];
            install_table(t, &checked[i], snapshot);
        }
        proof {
            let done = staged@[i as int];
            assert(done@.changes =~= final_table(st, t0, cs, snapshot).changes) by {
                assert forall|j: int| 0 <= j < t0.changes@.len() implies done@.changes[j] == #[trigger] final_table(
                    st,
                    t0,
                    cs,
                    snapshot,
                ).changes[j] by {
                    assert(done@.changes[j] == done.changes@[j]@);
                    assert(checked_change(st, t0.schema@, t0.changes@[j], snapshot) == Ok::<PreviousView, ErrorView>(cs[j]@));
                }
            }
            assert(done@ == final_table(st, t0, cs, snapshot));
            assert forall|p: int| 0 <= p < start.len() && p != i implies #[trigger] staged@[p] == now[p] by {}
        }
        i = i + 1;
    }
    proof {
        assert(model::views(staged@) =~= final_tables(st, start, checked@, snapshot));
        assert forall|p: int| 0 <= p < start.len() implies (#[trigger] staged@[p]).changes@.len() == start[p].changes@.len() by {
            assert(staged@[p]@.changes.len() == final_table(st, start[p], checked@[p]@, snapshot).changes.len());
        }
    }
}

/// Replaying a change leaves its record's id alone.
pub proof fn lemma_final_ids(st: &State, staged: Seq<PreparedTable>, checked: Seq<Vec<Previous>>, snapshot: u64)
    requires
        all_checked(st, staged, checked, snapshot),
        st.wf(),
    ensures
        ({
            let all = final_tables(st, staged, checked, snapshot);
            &&& staged::changes_distinct(model::views(staged)) ==> staged::changes_distinct(all)
            &&& staged::schemas_current(st, all)
            &&& unique::names_fit(all)
        }),
{
    let a = model::views(staged);
    let all = final_tables(st, staged, checked, snapshot);
    assert forall|i: int, j: int| #[trigger] staged::is_staged(all, i, j) implies staged::is_staged(a, i, j) && all[i].name == a[i].name
        && all[i].changes[j].id == a[i].changes[j].id by {
        assert(a[i] == staged[i]@);
        assert(a[i].changes[j] == staged[i].changes@[j]@);
    }
    assert forall|i: int| 0 <= i < all.len() implies st.table_view((#[trigger] all[i]).name) == Some(all[i].schema) by {
        assert(st.table_view(staged[i].name@) == Some(staged[i].schema@));
    }
    assert forall|i: int| 0 <= i < all.len() implies encode_utf8((#[trigger] all[i]).name).len() <= u32::MAX && forall|k: int|
        0 <= k < all[i].schema.indexes.len() ==> encode_utf8((#[trigger] all[i].schema.indexes[k]).column).len() <= u32::MAX by {
        assert(st.table_view(staged[i].name@) == Some(staged[i].schema@));
        st.lemma_table(staged[i].name@);
    }
    if staged::changes_distinct(a) {
        assert forall|i: int, j: int, k: int, l: int| #[trigger] staged::is_staged(all, i, j) && #[trigger] staged::is_staged(
            all,
            k,
            l,
        ) && all[i].name == all[k].name && all[i].changes[j].id == all[k].changes[l].id implies i == k && j == l by {
            assert(staged::is_staged(a, i, j) && staged::is_staged(a, k, l));
        }
    }
}

// ---- The whole transaction --------------------------------------------------

/// A transaction that may be committed.
pub struct Validated {
    pub staged: Vec<PreparedTable>,
    pub previous: Vec<Vec<Previous>>,
}

/// The records keep every rule once the changes are there.
pub open spec fn rules_kept(st: &State, staged: Seq<StagedView>) -> bool {
    &&& unique::any_unique(st.catalog@) ==> unique::unique_ok(st, staged)
    &&& foreign::any_foreign_key(st.catalog@) ==> foreign::foreign_ok(st, staged)
}

/// The rule that is broken first: unique indexes come before foreign keys.
pub open spec fn rule_error(st: &State, staged: Seq<StagedView>, e: ErrorView) -> bool {
    ||| exists|i: int, j: int, k: int| #[trigger] unique::claim_error(st, staged, i, j, k, e)
    ||| (unique::any_unique(st.catalog@) ==> unique::unique_ok(st, staged)) && foreign::foreign_error(st, staged, e)
}

impl Validated {
    /// What was validated: the staged changes, replayed where their records
    /// moved on, and what each of them supersedes.
    pub open spec fn stands_for(&self, st: &State, staged: Seq<PreparedTable>, snapshot: u64) -> bool {
        &&& all_checked(st, staged, self.previous@, snapshot)
        &&& model::views(self.staged@) == final_tables(st, staged, self.previous@, snapshot)
        &&& staged::tables_wf(self.staged@)
        &&& publish::previous_fits(self.staged@, self.previous@)
    }
}

/// Validate a transaction against the committed state: no record moved on
/// after the snapshot unless its change can be replayed, and unique indexes and
/// foreign keys are kept.
pub fn validate_prepared_commit(st: &State, snapshot: u64, staged: Vec<PreparedTable>) -> (r: Result<Validated, Error>)
    requires
        st.inv(),
        staged::tables_wf(staged@),
        staged::changes_distinct(model::views(staged@)),
    ensures
        r matches Ok(v) ==> v.stands_for(st, staged@, snapshot) && rules_kept(st, model::views(v.staged@)),
        r matches Err(e) ==> check_error(st, staged@, snapshot, e@) || exists|checked: Seq<Vec<Previous>>|
            #[trigger] all_checked(st, staged@, checked, snapshot) && rule_error(
                st,
                final_tables(st, staged@, checked, snapshot),
                e@,
            ),
{
    let ghost start = staged@;
    let previous = match check_tables(st, &staged, snapshot) {
        Ok(p) => p,
        Err(e) => {
            return Err(e);
        },
    };
    let mut staged = staged;
    install_replays(&mut staged, &previous, snapshot, Ghost(st));
    let ghost all = final_tables(st, start, previous@, snapshot);
    proof {
        lemma_final_ids(st, start, previous@, snapshot);
        assert(all_checked(st, start, previous@, snapshot));
        assert forall|i: int, j: int| 0 <= i < previous@.len() && 0 <= j < previous@[i]@.len() implies (
        (#[trigger] previous@[i]@[j]).prior matches Some(rec) ==> rec.wf()) by {
            assert(table_checked(st, start[i], previous@[i]@, snapshot));
        }
        assert forall|i: int| 0 <= i < previous@.len() implies (#[trigger] previous@[i])@.len() == staged@[i].changes@.len() by {
            assert(table_checked(st, start[i], previous@[i]@, snapshot));
        }
    }
    {
        let borrowed = borrow_all(&staged);
        match validate_unique(st, &borrowed) {
            Ok(()) => {},
            Err(e) => {
                assert(rule_error(st, all, e@));
                return Err(e);
            },
        }
        match validate_foreign_keys(st, &borrowed) {
            Ok(()) => {},
            Err(e) => {
                assert(rule_error(st, all, e@));
                return Err(e);
            },
        }
    }
    Ok(Validated { staged, previous })
}

} // verus!
