//! Many commits at once: one log write and one publication for all of them.
//!
//! The members of a batch change different records, so each is validated as if
//! it were alone. A member that the batch cannot take is set aside and commits
//! by itself afterwards.

use crate::bytes;
use crate::commit::{self, check_tables, Validated};
use crate::cow::{share, CowSet};
use crate::error::{Error, ErrorView};
use crate::foreign::validate_foreign_keys;
use crate::memory::{self, MemoryGovernor};
use crate::model::{self, Comparable};
use crate::order::Datum;
use crate::prepare::PreparedCommit;
use crate::publish::{self, Previous, PreviousView, Published};
use crate::segment;
use crate::staged::{self, PreparedChange, PreparedTable, StagedView};
use crate::state::State;
use crate::text::{self, decimal_text};
use crate::unique::{self, validate_unique};
use crate::version::{self, primary_key};
use crate::wal::{self, encode_commit, WalRecord};
use std::sync::Arc;
use vstd::prelude::*;
use vstd::string::*;
use vstd::utf8::*;

verus! {

// ---- Who joins --------------------------------------------------------------

pub open spec fn all_ready(m: Seq<PreparedCommit>) -> bool {
    forall|k: int| 0 <= k < m.len() ==> (#[trigger] m[k]).wf()
}

pub open spec fn schemas_match(st: &State, c: PreparedCommit) -> bool {
    forall|i: int| 0 <= i < c.staged@.len() ==> st.table_view((#[trigger] c.staged@[i]).name@) == Some(c.staged@[i].schema@)
}

pub open spec fn all_match(st: &State, m: Seq<PreparedCommit>) -> bool {
    forall|k: int| 0 <= k < m.len() ==> schemas_match(st, #[trigger] m[k])
}

/// Every change of the member could be committed by itself.
pub open spec fn member_ok(st: &State, c: PreparedCommit) -> bool {
    forall|i: int, j: int| #[trigger] change_ok(st, c, i, j)
}

pub open spec fn change_ok(st: &State, c: PreparedCommit, i: int, j: int) -> bool {
    0 <= i < c.staged@.len() && 0 <= j < c.staged@[i].changes@.len() ==> commit::checked_change(
        st,
        c.staged@[i].schema@,
        c.staged@[i].changes@[j],
        c.snapshot,
    ) is Ok
}

/// Whether one of the first `k` members that join changes the record.
pub open spec fn taken(st: &State, m: Seq<PreparedCommit>, k: int, key: Seq<u8>) -> bool
    decreases k, 0int,
{
    k > 0 && (taken(st, m, k - 1, key) || (joins(st, m, k - 1) && unique::touched(model::views(m[k - 1].staged@), key)))
}

/// Whether a member joins: it could commit by itself, and no member before it
/// that joins changes one of its records.
pub open spec fn joins(st: &State, m: Seq<PreparedCommit>, k: int) -> bool
    decreases k, 1int,
{
    &&& k >= 0
    &&& member_ok(st, m[k])
    &&& forall|key: Seq<u8>| #[trigger] unique::touched(model::views(m[k].staged@), key) ==> !taken(st, m, k, key)
}

/// The places of those that join among the first `n`.
pub open spec fn joined(st: &State, m: Seq<PreparedCommit>, n: int) -> Seq<int>
    decreases n,
{
    if n <= 0 {
        Seq::empty()
    } else if joins(st, m, n - 1) {
        joined(st, m, n - 1).push(n - 1)
    } else {
        joined(st, m, n - 1)
    }
}

/// The places of the others.
pub open spec fn left_out(st: &State, m: Seq<PreparedCommit>, n: int) -> Seq<int>
    decreases n,
{
    if n <= 0 {
        Seq::empty()
    } else if joins(st, m, n - 1) {
        left_out(st, m, n - 1)
    } else {
        left_out(st, m, n - 1).push(n - 1)
    }
}

pub proof fn lemma_joined(st: &State, m: Seq<PreparedCommit>, n: int)
    requires
        0 <= n <= m.len(),
    ensures
        forall|q: int| 0 <= q < joined(st, m, n).len() ==> 0 <= #[trigger] joined(st, m, n)[q] < n && joins(
            st,
            m,
            joined(st, m, n)[q],
        ),
        joined(st, m, n).len() <= n,
        forall|k: int| 0 <= k < n ==> (#[trigger] joins(st, m, k) <==> joined(st, m, n).contains(k)),
    decreases n,
{
    if n > 0 {
        lemma_joined(st, m, n - 1);
        let a = joined(st, m, n - 1);
        let b = joined(st, m, n);
        assert forall|k: int| 0 <= k < n implies (#[trigger] joins(st, m, k) <==> b.contains(k)) by {
            if a.contains(k) {
                assert(b[a.index_of(k)] == k);
            }
            if joins(st, m, n - 1) {
                assert(b[a.len() as int] == n - 1);
            }
            if b.contains(k) {
                let q = b.index_of(k);
                if q < a.len() {
                    assert(a[q] == k);
                }
            }
        }
    }
}

/// No record is changed by two members that join: it is the batch's reason to
/// validate each of them as if it were alone.
pub proof fn lemma_members_disjoint(st: &State, m: Seq<PreparedCommit>, a: int, b: int, key: Seq<u8>)
    requires
        0 <= a < b < m.len(),
        joins(st, m, a),
        joins(st, m, b),
        unique::touched(model::views(m[a].staged@), key),
    ensures
        !unique::touched(model::views(m[b].staged@), key),
{
    lemma_taken(st, m, a, b, key);
}

proof fn lemma_taken(st: &State, m: Seq<PreparedCommit>, a: int, k: int, key: Seq<u8>)
    requires
        0 <= a < k,
        joins(st, m, a),
        unique::touched(model::views(m[a].staged@), key),
    ensures
        taken(st, m, k, key),
    decreases k,
{
    if a < k - 1 {
        lemma_taken(st, m, a, k - 1, key);
    }
}

// ---- The changes of all members ---------------------------------------------

/// The tables of the first `n` members, one after another.
pub open spec fn flat(s: Seq<Vec<PreparedTable>>, n: int) -> Seq<StagedView>
    decreases n,
{
    if n <= 0 {
        Seq::empty()
    } else {
        flat(s, n - 1) + model::views(s[n - 1]@)
    }
}

proof fn lemma_flat_push(s: Seq<Vec<PreparedTable>>, v: Vec<PreparedTable>, n: int)
    requires
        0 <= n <= s.len(),
    ensures
        flat(s.push(v), n) == flat(s, n),
    decreases n,
{
    if n > 0 {
        lemma_flat_push(s, v, n - 1);
    }
}

proof fn lemma_touched_concat(a: Seq<StagedView>, b: Seq<StagedView>)
    ensures
        forall|key: Seq<u8>| #[trigger] unique::touched(a + b, key) <==> unique::touched(a, key) || unique::touched(b, key),
{
    let c = a + b;
    assert forall|i: int, j: int| staged::is_staged(a, i, j) implies #[trigger] staged::is_staged(c, i, j) by {}
    assert forall|key: Seq<u8>| #[trigger] unique::touched(c, key) <==> unique::touched(a, key) || unique::touched(b, key) by {
        if unique::touched(c, key) {
            let (i, j) = choose|i: int, j: int|
                #[trigger] staged::is_staged(c, i, j) && version::key_of(encode_utf8(c[i].name), encode_utf8(c[i].changes[j].id)) == key;
            if i < a.len() {
                assert(staged::is_staged(a, i, j));
            } else {
                assert(staged::is_staged(b, i - a.len(), j));
            }
        }
        if unique::touched(a, key) {
            let (i, j) = choose|i: int, j: int|
                #[trigger] staged::is_staged(a, i, j) && version::key_of(encode_utf8(a[i].name), encode_utf8(a[i].changes[j].id)) == key;
            assert(staged::is_staged(c, i, j));
        }
        if unique::touched(b, key) {
            let (i, j) = choose|i: int, j: int|
                #[trigger] staged::is_staged(b, i, j) && version::key_of(encode_utf8(b[i].name), encode_utf8(b[i].changes[j].id)) == key;
            assert(staged::is_staged(c, i + a.len(), j));
        }
    }
}

proof fn lemma_concat_distinct(a: Seq<StagedView>, b: Seq<StagedView>)
    requires
        staged::changes_distinct(a),
        staged::changes_distinct(b),
        forall|key: Seq<u8>| #[trigger] unique::touched(b, key) ==> !unique::touched(a, key),
    ensures
        staged::changes_distinct(a + b),
{
    let c = a + b;
    assert forall|i: int, j: int, k: int, l: int| #[trigger] staged::is_staged(c, i, j) && #[trigger] staged::is_staged(c, k, l)
        && c[i].name == c[k].name && c[i].changes[j].id == c[k].changes[l].id implies i == k && j == l by {
        let n = a.len() as int;
        let key = version::key_of(encode_utf8(c[i].name), encode_utf8(c[i].changes[j].id));
        if i < n && k < n {
            assert(staged::is_staged(a, i, j) && staged::is_staged(a, k, l));
        } else if i >= n && k >= n {
            assert(staged::is_staged(b, i - n, j) && staged::is_staged(b, k - n, l));
        } else if i < n {
            assert(staged::is_staged(a, i, j) && staged::is_staged(b, k - n, l));
            assert(unique::touched(a, key) && unique::touched(b, key));
        } else {
            assert(staged::is_staged(b, i - n, j) && staged::is_staged(a, k, l));
            assert(unique::touched(a, key) && unique::touched(b, key));
        }
    }
}

proof fn lemma_final_touched(st: &State, staged: Seq<PreparedTable>, checked: Seq<Vec<Previous>>, snapshot: u64)
    requires
        commit::all_checked(st, staged, checked, snapshot),
    ensures
        forall|key: Seq<u8>| #[trigger] unique::touched(commit::final_tables(st, staged, checked, snapshot), key)
            <==> unique::touched(model::views(staged), key),
{
    let a = model::views(staged);
    let f = commit::final_tables(st, staged, checked, snapshot);
    assert forall|i: int, j: int| #[trigger] staged::is_staged(f, i, j) <==> staged::is_staged(a, i, j) by {
        if 0 <= i < staged.len() {
            assert(a[i] == staged[i]@);
        }
    }
    assert forall|i: int, j: int| #[trigger] staged::is_staged(a, i, j) implies f[i].name == a[i].name && f[i].changes[j].id
        == a[i].changes[j].id by {
        assert(a[i] == staged[i]@);
        assert(a[i].changes[j] == staged[i].changes@[j]@);
    }
    assert forall|key: Seq<u8>| #[trigger] unique::touched(f, key) <==> unique::touched(a, key) by {
        if unique::touched(f, key) {
            let (i, j) = choose|i: int, j: int|
                #[trigger] staged::is_staged(f, i, j) && version::key_of(encode_utf8(f[i].name), encode_utf8(f[i].changes[j].id)) == key;
            assert(staged::is_staged(a, i, j));
        }
        if unique::touched(a, key) {
            let (i, j) = choose|i: int, j: int|
                #[trigger] staged::is_staged(a, i, j) && version::key_of(encode_utf8(a[i].name), encode_utf8(a[i].changes[j].id)) == key;
            assert(staged::is_staged(f, i, j));
        }
    }
}

// ---- Copies with the replays in place ---------------------------------------

fn final_copy(change: &PreparedChange, moved: bool) -> (r: PreparedChange)
    requires
        change.wf(),
        moved ==> commit::can_replay(*change),
    ensures
        r.wf(),
        r.replay is None,
        r@ == (if moved {
            commit::replayed(*change)
        } else {
            change@
        }),
{
    if moved {
        match &change.replay {
            Some(replay) => match &replay.outcome {
                Some(done) => {
                    return PreparedChange {
                        id: change.id.clone(),
                        operation: Some(done.record.duplicate()),
                        payload: Some(share(&done.payload)),
                        replay: None,
                    };
                },
                None => {},
            },
            None => {},
        }
    }
    let operation = match &change.operation {
        Some(rec) => Some(rec.duplicate()),
        None => None,
    };
    let payload: Option<Arc<Vec<u8>>> = match &change.payload {
        Some(p) => Some(share(p)),
        None => None,
    };
    PreparedChange { id: change.id.clone(), operation, payload, replay: None }
}

fn replayed_table(t: &PreparedTable, checked: &Vec<Previous>, snapshot: u64, Ghost(st): Ghost<&State>) -> (r: PreparedTable)
    requires
        t.wf(),
        commit::table_checked(st, *t, checked@, snapshot),
    ensures
        r.wf(),
        r@ == commit::final_table(st, *t, checked@, snapshot),
        r.changes@.len() == t.changes@.len(),
{
    let mut changes: Vec<PreparedChange> = Vec::new();
    let mut j: usize = 0;
    while j < t.changes.len()
        invariant
            t.wf(),
            commit::table_checked(st, *t, checked@, snapshot),
            j <= t.changes@.len(),
            changes@.len() == j,
            forall|q: int| 0 <= q < j ==> {
                &&& (#[trigger] changes@[q]).wf()
                &&& changes@[q].replay is None
                &&& changes@[q]@ == commit::final_change(t.schema@, t.changes@[q], checked@[q]@, snapshot)
            },
        decreases t.changes@.len() - j,
    {
        let moved: bool = match &checked[j].entry {
            Some(v) => v.version > snapshot,
            None => false,
        };
        proof {
            assert(t.changes@[j as int].wf());
            assert(moved == commit::moved_on(checked@[j as int]@.entry, snapshot));
            assert(commit::checked_change(st, t.schema@, t.changes@[j as int], snapshot) == Ok::<PreviousView, ErrorView>(
                checked@[j as int]@,
            ));
        }
        changes.push(final_copy(&t.changes[j], moved));
        j = j + 1;
    }
    let r = PreparedTable { name: t.name.clone(), schema: t.schema.duplicate(), changes };
    assert(r@.changes =~= commit::final_table(st, *t, checked@, snapshot).changes);
    r
}

fn replayed_tables(staged: &Vec<PreparedTable>, checked: &Vec<Vec<Previous>>, snapshot: u64, Ghost(st): Ghost<&State>) -> (r: Vec<PreparedTable>)
    requires
        staged::tables_wf(staged@),
        commit::all_checked(st, staged@, checked@, snapshot),
    ensures
        staged::tables_wf(r@),
        model::views(r@) == commit::final_tables(st, staged@, checked@, snapshot),
        publish::previous_fits(r@, checked@),
{
    let mut out: Vec<PreparedTable> = Vec::new();
    let mut i: usize = 0;
    while i < staged.len()
        invariant
            staged::tables_wf(staged@),
            commit::all_checked(st, staged@, checked@, snapshot),
            i <= staged@.len(),
            out@.len() == i,
            forall|p: int| 0 <= p < i ==> {
                &&& (#[trigger] out@[p]).wf()
                &&& out@[p]@ == commit::final_table(st, staged@[p], checked@[p]@, snapshot)
                &&& out@[p].changes@.len() == staged@[p].changes@.len()
            },
        decreases staged@.len() - i,
    {
        proof {
            assert(staged@[i as int].wf());
            assert(commit::table_checked(st, staged@[i as int], checked@[i as int]@, snapshot));
        }
        out.push(replayed_table(&staged[i], &checked[i], snapshot, Ghost(st)));
        i = i + 1;
    }
    proof {
        assert(model::views(out@) =~= commit::final_tables(st, staged@, checked@, snapshot));
        assert forall|p: int| 0 <= p < checked@.len() implies (#[trigger] checked@[p])@.len() == out@[p].changes@.len() by {
            assert(commit::table_checked(st, staged@[p], checked@[p]@, snapshot));
        }
        assert forall|p: int, q: int| 0 <= p < checked@.len() && 0 <= q < checked@[p]@.len() implies (
        (#[trigger] checked@[p]@[q]).prior matches Some(rec) ==> rec.wf()) by {
            assert(commit::table_checked(st, staged@[p], checked@[p]@, snapshot));
        }
    }
    out
}

// ---- Rows that are taken ----------------------------------------------------

/// Whether a member changes a record of the set.
fn overlaps(rows: &CowSet<Vec<u8>>, staged: &Vec<PreparedTable>) -> (r: bool)
    requires
        rows.wf(),
        unique::names_fit(model::views(staged@)),
    ensures
        r == exists|key: Seq<u8>| #[trigger] unique::touched(model::views(staged@), key) && rows@.contains(key),
{
    let ghost all = model::views(staged@);
    let mut i: usize = 0;
    while i < staged.len()
        invariant
            rows.wf(),
            all == model::views(staged@),
            unique::names_fit(all),
            i <= staged@.len(),
            forall|p: int, q: int|
                #[trigger] staged::is_staged(all, p, q) && p < i ==> !rows@.contains(
                    version::key_of(encode_utf8(all[p].name), encode_utf8(all[p].changes[q].id)),
                ),
        decreases staged@.len() - i,
    {
        let t = &staged[i];
        assert(all[i as int] == t@);
        let mut j: usize = 0;
        while j < t.changes.len()
            invariant
                rows.wf(),
                all == model::views(staged@),
                unique::names_fit(all),
                i < staged@.len(),
                *t == staged@[i as int],
                all[i as int] == t@,
                j <= t.changes@.len(),
                forall|p: int, q: int|
                    #[trigger] staged::is_staged(all, p, q) && (p < i || (p == i && q < j)) ==> !rows@.contains(
                        version::key_of(encode_utf8(all[p].name), encode_utf8(all[p].changes[q].id)),
                    ),
            decreases t.changes@.len() - j,
        {
            assert(all[i as int].changes[j as int] == t.changes@[j as int]@);
            let key = primary_key(t.name.as_str(), t.changes[j].id.as_str());
            if rows.contains(key.as_slice()) {
                proof {
                    assert(staged::is_staged(all, i as int, j as int));
                    assert(unique::touched(all, key@));
                }
                return true;
            }
            j = j + 1;
        }
        i = i + 1;
    }
    proof {
        assert forall|key: Seq<u8>| #[trigger] unique::touched(all, key) implies !rows@.contains(key) by {
            let (p, q) = choose|p: int, q: int|
                #[trigger] staged::is_staged(all, p, q) && version::key_of(encode_utf8(all[p].name), encode_utf8(all[p].changes[q].id))
                    == key;
            assert(staged::is_staged(all, p, q));
        }
    }
    false
}

fn take_rows(rows: &mut CowSet<Vec<u8>>, staged: &Vec<PreparedTable>)
    requires
        old(rows).wf(),
        unique::names_fit(model::views(staged@)),
    ensures
        final(rows).wf(),
        forall|key: Seq<u8>| #[trigger] final(rows)@.contains(key) <==> old(rows)@.contains(key) || unique::touched(
            model::views(staged@),
            key,
        ),
{
    let borrowed = staged::borrow_all(staged);
    let more = unique::touched_keys(&borrowed);
    let ghost all = model::views(staged@);
    let ghost before = rows@;
    let list = more.iter();
    let ghost names = more.members();
    proof {
        more.lemma_members();
        assert(crate::cow::ranks(list@) == names);
    }
    let mut i: usize = 0;
    while i < list.len()
        invariant
            rows.wf(),
            i <= list@.len(),
            crate::cow::ranks(list@) == names,
            forall|key: Seq<u8>| #[trigger] rows@.contains(key) <==> before.contains(key) || names.subrange(0, i as int).contains(key),
        decreases list@.len() - i,
    {
        assert(names[i as int] == list@[i as int]@);
        let ghost now = rows@;
        let _ = rows.insert(bytes::copy_of(list[i].as_slice()));
        proof {
            let a = names.subrange(0, i as int);
            let b = names.subrange(0, i + 1);
            assert forall|key: Seq<u8>| #[trigger] rows@.contains(key) <==> before.contains(key) || b.contains(key) by {
                if a.contains(key) {
                    assert(b[a.index_of(key)] == key);
                }
                if key == names[i as int] {
                    assert(b[i as int] == key);
                }
                if b.contains(key) {
                    let q = b.index_of(key);
                    if q < i {
                        assert(a[q] == key);
                    }
                }
                assert(now.contains(key) <==> before.contains(key) || a.contains(key));
            }
        }
        i = i + 1;
    }
    assert(names.subrange(0, i as int) =~= names);
    proof {
        assert forall|key: Seq<u8>| #[trigger] rows@.contains(key) <==> before.contains(key) || unique::touched(all, key) by {
            assert(more@.contains(key) <==> names.contains(key));
        }
    }
}

// ---- Forming the batch ------------------------------------------------------

/// A member that the batch takes.
pub struct BatchMember {
    /// Its place among the commits that the batch was formed of.
    pub place: usize,
    pub version: u64,
    pub validated: Validated,
    pub record: WalRecord,
}

pub struct SetAside {
    pub place: usize,
    pub commit: PreparedCommit,
}

pub struct Batch {
    pub members: Vec<BatchMember>,
    pub set_aside: Vec<SetAside>,
    pub incoming_index_bytes: usize,
}

pub enum Formed {
    Batch(Batch),
    /// There are not enough versions left for the members.
    Exhausted { places: Vec<usize>, set_aside: Vec<SetAside> },
    /// No batch can form: every commit goes by itself.
    HandedBack(Vec<PreparedCommit>),
}

/// What the first `n` members charge the index deltas.
pub open spec fn incoming(m: Seq<PreparedCommit>, n: int) -> int
    decreases n,
{
    if n <= 0 {
        0
    } else {
        incoming(m, n - 1) + m[n - 1].incoming_index_bytes
    }
}

/// What those of the first `n` that join charge.
pub open spec fn joined_incoming(st: &State, m: Seq<PreparedCommit>, n: int) -> int
    decreases n,
{
    if n <= 0 {
        0
    } else if joins(st, m, n - 1) {
        joined_incoming(st, m, n - 1) + m[n - 1].incoming_index_bytes
    } else {
        joined_incoming(st, m, n - 1)
    }
}

/// A member with its replays in place, and what each change supersedes.
pub open spec fn member_stands(st: &State, c: PreparedCommit, done: Seq<PreparedTable>, checked: Seq<Vec<Previous>>) -> bool {
    &&& commit::all_checked(st, c.staged@, checked, c.snapshot)
    &&& model::views(done) == commit::final_tables(st, c.staged@, checked, c.snapshot)
    &&& staged::tables_wf(done)
    &&& publish::previous_fits(done, checked)
}

/// The members that joined are validated against the committed state.
pub open spec fn members_stand(st: &State, m: Seq<PreparedCommit>, n: int, finals: Seq<Vec<PreparedTable>>, checks: Seq<Vec<Vec<Previous>>>) -> bool {
    let places = joined(st, m, n);
    &&& finals.len() == places.len()
    &&& checks.len() == places.len()
    &&& forall|q: int| 0 <= q < places.len() ==> #[trigger] member_stands(st, m[places[q]], finals[q]@, checks[q]@)
}

fn total_incoming(m: &Vec<PreparedCommit>) -> (r: Option<usize>)
    ensures
        match r {
            Some(n) => n == incoming(m@, m@.len() as int),
            None => incoming(m@, m@.len() as int) > usize::MAX,
        },
{
    let mut total: usize = 0;
    let mut i: usize = 0;
    while i < m.len()
        invariant
            i <= m@.len(),
            total == incoming(m@, i as int),
        decreases m@.len() - i,
    {
        match total.checked_add(m[i].incoming_index_bytes) {
            Some(n) => {
                total = n;
            },
            None => {
                proof {
                    lemma_incoming(m@, i + 1);
                }
                return None;
            },
        }
        i = i + 1;
    }
    Some(total)
}

proof fn lemma_incoming(m: Seq<PreparedCommit>, n: int)
    requires
        0 <= n <= m.len(),
    ensures
        incoming(m, n) <= incoming(m, m.len() as int),
    decreases m.len() - n,
{
    if n < m.len() {
        lemma_incoming(m, n + 1);
    }
}

fn matches_catalog(st: &State, c: &PreparedCommit) -> (r: bool)
    ensures
        r == schemas_match(st, *c),
{
    let mut i: usize = 0;
    while i < c.staged.len()
        invariant
            i <= c.staged@.len(),
            forall|p: int| 0 <= p < i ==> st.table_view((#[trigger] c.staged@[p]).name@) == Some(c.staged@[p].schema@),
        decreases c.staged@.len() - i,
    {
        let t = &c.staged[i];
        let same: bool = match st.catalog.table(t.name.as_str()) {
            None => false,
            Some(found) => found.same(&t.schema),
        };
        if !same {
            assert(st.table_view(c.staged@[i as int].name@) != Some(c.staged@[i as int].schema@));
            return false;
        }
        i = i + 1;
    }
    true
}

fn all_match_catalog(st: &State, m: &Vec<PreparedCommit>) -> (r: bool)
    ensures
        r == all_match(st, m@),
{
    let mut k: usize = 0;
    while k < m.len()
        invariant
            k <= m@.len(),
            forall|p: int| 0 <= p < k ==> schemas_match(st, #[trigger] m@[p]),
        decreases m@.len() - k,
    {
        if !matches_catalog(st, &m[k]) {
            return false;
        }
        k = k + 1;
    }
    true
}

proof fn lemma_names(st: &State, c: PreparedCommit)
    requires
        st.wf(),
        schemas_match(st, c),
    ensures
        unique::names_fit(model::views(c.staged@)),
        staged::schemas_current(st, model::views(c.staged@)),
{
    let all = model::views(c.staged@);
    assert forall|i: int| 0 <= i < all.len() implies encode_utf8((#[trigger] all[i]).name).len() <= u32::MAX && forall|k: int|
        0 <= k < all[i].schema.indexes.len() ==> encode_utf8((#[trigger] all[i].schema.indexes[k]).column).len() <= u32::MAX by {
        assert(all[i] == c.staged@[i]@);
        assert(st.table_view(c.staged@[i].name@) == Some(c.staged@[i].schema@));
        st.lemma_table(c.staged@[i].name@);
    }
    assert forall|i: int| 0 <= i < all.len() implies st.table_view((#[trigger] all[i]).name) == Some(all[i].schema) by {
        assert(all[i] == c.staged@[i]@);
        assert(st.table_view(c.staged@[i].name@) == Some(c.staged@[i].schema@));
    }
}

/// The members that a batch takes, with what was found out about them.
struct Gathered {
    places: Vec<usize>,
    finals: Vec<Vec<PreparedTable>>,
    checks: Vec<Vec<Vec<Previous>>>,
    incoming: usize,
}

/// What a member supersedes, or none where the batch has to set it aside.
fn batch_member_previous(st: &State, c: &PreparedCommit, rows: &CowSet<Vec<u8>>) -> (r: Option<Vec<Vec<Previous>>>)
    requires
        st.inv(),
        schemas_match(st, *c),
        rows.wf(),
    ensures
        r is Some <==> member_ok(st, *c) && forall|key: Seq<u8>| #[trigger]
            unique::touched(model::views(c.staged@), key) ==> !rows@.contains(key),
        r matches Some(checked) ==> commit::all_checked(st, c.staged@, checked@, c.snapshot),
{
    proof {
        lemma_names(st, *c);
    }
    if overlaps(rows, &c.staged) {
        return None;
    }
    match check_tables(st, &c.staged, c.snapshot) {
        Ok(checked) => {
            proof {
                assert forall|i: int, j: int| #[trigger] change_ok(st, *c, i, j) by {
                    if 0 <= i < c.staged@.len() && 0 <= j < c.staged@[i].changes@.len() {
                        assert(commit::table_checked(st, c.staged@[i], checked@[i]@, c.snapshot));
                        assert(commit::checked_change(st, c.staged@[i].schema@, c.staged@[i].changes@[j], c.snapshot) == Ok::<
                            PreviousView,
                            ErrorView,
                        >(checked@[i]@[j]@));
                    }
                }
            }
            Some(checked)
        },
        Err(e) => {
            proof {
                let (i, j) = commit::lemma_fault_place(st, c.staged@, c.snapshot, c.staged@.len() as int);
                assert(!change_ok(st, *c, i, j));
            }
            None
        },
    }
}

#[verifier::rlimit(60)]
fn gather(st: &State, m: &Vec<PreparedCommit>) -> (r: Gathered)
    requires
        st.inv(),
        all_ready(m@),
        all_match(st, m@),
    ensures
        r.places@.len() == joined(st, m@, m@.len() as int).len(),
        forall|q: int| 0 <= q < r.places@.len() ==> #[trigger] r.places@[q] == joined(st, m@, m@.len() as int)[q],
        members_stand(st, m@, m@.len() as int, r.finals@, r.checks@),
        staged::changes_distinct(flat(r.finals@, r.finals@.len() as int)),
        staged::schemas_current(st, flat(r.finals@, r.finals@.len() as int)),
        unique::names_fit(flat(r.finals@, r.finals@.len() as int)),
        r.incoming == crate::record::capped(joined_incoming(st, m@, m@.len() as int)),
{
    let mut places: Vec<usize> = Vec::new();
    let mut finals: Vec<Vec<PreparedTable>> = Vec::new();
    let mut checks: Vec<Vec<Vec<Previous>>> = Vec::new();
    let mut rows: CowSet<Vec<u8>> = CowSet::new();
    let mut total: usize = 0;
    let mut k: usize = 0;
    while k < m.len()
        invariant
            st.inv(),
            all_ready(m@),
            all_match(st, m@),
            k <= m@.len(),
            places@.len() == joined(st, m@, k as int).len(),
            forall|q: int| 0 <= q < places@.len() ==> #[trigger] places@[q] == joined(st, m@, k as int)[q],
            members_stand(st, m@, k as int, finals@, checks@),
            rows.wf(),
            forall|key: Seq<u8>| #[trigger] rows@.contains(key) <==> taken(st, m@, k as int, key),
            forall|key: Seq<u8>| #[trigger] unique::touched(flat(finals@, finals@.len() as int), key) <==> taken(
                st,
                m@,
                k as int,
                key,
            ),
            staged::changes_distinct(flat(finals@, finals@.len() as int)),
            staged::schemas_current(st, flat(finals@, finals@.len() as int)),
            unique::names_fit(flat(finals@, finals@.len() as int)),
            total == crate::record::capped(joined_incoming(st, m@, k as int)),
            joined_incoming(st, m@, k as int) >= 0,
        decreases m@.len() - k,
    {
        let c = &m[k];
        assert(c.wf());
        assert(schemas_match(st, *c));
        let ghost set = rows@;
        let ghost old_finals = finals@;
        let ghost old_checks = checks@;
        let ghost old_flat = flat(finals@, finals@.len() as int);
        let ghost own = model::views(c.staged@);
        match batch_member_previous(st, c, &rows) {
            Some(checked) => {
                proof {
                    assert(joins(st, m@, k as int)) by {
                        assert forall|key: Seq<u8>| #[trigger] unique::touched(own, key) implies !taken(st, m@, k as int, key) by {
                            assert(!set.contains(key));
                        }
                    }
                    lemma_names(st, *c);
                    lemma_final_touched(st, c.staged@, checked@, c.snapshot);
                    commit::lemma_final_ids(st, c.staged@, checked@, c.snapshot);
                }
                let copies = replayed_tables(&c.staged, &checked, c.snapshot, Ghost(st));
                let ghost cv = model::views(copies@);
                take_rows(&mut rows, &c.staged);
                places.push(k);
                finals.push(copies);
                checks.push(checked);
                total = total.saturating_add(c.incoming_index_bytes);
                proof {
                    lemma_flat_push(old_finals, copies, old_finals.len() as int);
                    let f = flat(finals@, finals@.len() as int);
                    assert(f == old_flat + cv);
                    lemma_touched_concat(old_flat, cv);
                    assert forall|key: Seq<u8>| #[trigger] unique::touched(cv, key) implies !unique::touched(old_flat, key) by {
                        assert(unique::touched(own, key));
                        assert(!set.contains(key));
                        assert(set.contains(key) <==> taken(st, m@, k as int, key));
                    }
                    lemma_concat_distinct(old_flat, cv);
                    assert forall|key: Seq<u8>| #[trigger] rows@.contains(key) <==> taken(st, m@, k + 1, key) by {
                        assert(set.contains(key) <==> taken(st, m@, k as int, key));
                    }
                    assert forall|key: Seq<u8>| #[trigger] unique::touched(f, key) <==> taken(st, m@, k + 1, key) by {
                        assert(unique::touched(old_flat, key) <==> taken(st, m@, k as int, key));
                        assert(unique::touched(cv, key) <==> unique::touched(own, key));
                    }
                    let a = joined(st, m@, k as int);
                    let b = joined(st, m@, k + 1);
                    assert(b == a.push(k as int));
                    assert forall|q: int| 0 <= q < b.len() implies #[trigger] member_stands(
                        st,
                        m@[b[q]],
                        finals@[q]@,
                        checks@[q]@,
                    ) by {
                        if q < a.len() {
                            assert(checks@[q] == old_checks[q] && finals@[q] == old_finals[q] && b[q] == a[q]);
                            assert(member_stands(st, m@[a[q]], old_finals[q]@, old_checks[q]@));
                        }
                    }
                    assert forall|i: int| 0 <= i < f.len() implies st.table_view((#[trigger] f[i]).name) == Some(f[i].schema) by {
                        if i >= old_flat.len() {
                            assert(f[i] == cv[i - old_flat.len()]);
                        } else {
                            assert(f[i] == old_flat[i]);
                        }
                    }
                    assert forall|i: int| 0 <= i < f.len() implies encode_utf8((#[trigger] f[i]).name).len() <= u32::MAX && forall|
                        x: int,
                    | 0 <= x < f[i].schema.indexes.len() ==> encode_utf8((#[trigger] f[i].schema.indexes[x]).column).len() <= u32::MAX by {
                        if i >= old_flat.len() {
                            assert(f[i] == cv[i - old_flat.len()]);
                        } else {
                            assert(f[i] == old_flat[i]);
                        }
                    }
                }
            },
            None => {
                proof {
                    assert(!joins(st, m@, k as int)) by {
                        if joins(st, m@, k as int) {
                            assert forall|key: Seq<u8>| #[trigger] unique::touched(own, key) implies !set.contains(key) by {
                                assert(set.contains(key) <==> taken(st, m@, k as int, key));
                            }
                        }
                    }
                    assert forall|key: Seq<u8>| #[trigger] rows@.contains(key) <==> taken(st, m@, k + 1, key) by {
                        assert(set.contains(key) <==> taken(st, m@, k as int, key));
                    }
                    assert forall|key: Seq<u8>| #[trigger] unique::touched(old_flat, key) <==> taken(st, m@, k + 1, key) by {
                        assert(unique::touched(old_flat, key) <==> taken(st, m@, k as int, key));
                    }
                }
            },
        }
        k = k + 1;
    }
    Gathered { places, finals, checks, incoming: total }
}

fn borrow_flat(finals: &Vec<Vec<PreparedTable>>) -> (r: Vec<&PreparedTable>)
    requires
        forall|q: int| 0 <= q < finals@.len() ==> staged::tables_wf((#[trigger] finals@[q])@),
    ensures
        model::views(r@) == flat(finals@, finals@.len() as int),
        staged::staged_wf(r@),
{
    let mut out: Vec<&PreparedTable> = Vec::new();
    let mut q: usize = 0;
    assert(model::views(out@) =~= Seq::<StagedView>::empty());
    while q < finals.len()
        invariant
            forall|q: int| 0 <= q < finals@.len() ==> staged::tables_wf((#[trigger] finals@[q])@),
            q <= finals@.len(),
            model::views(out@) == flat(finals@, q as int),
            staged::staged_wf(out@),
        decreases finals@.len() - q,
    {
        let list = &finals[q];
        let ghost start = model::views(out@);
        let mut i: usize = 0;
        assert(start + model::views(list@).subrange(0, 0) =~= start);
        while i < list.len()
            invariant
                q < finals@.len(),
                *list == finals@[q as int],
                staged::tables_wf(list@),
                i <= list@.len(),
                model::views(out@) == start + model::views(list@).subrange(0, i as int),
                staged::staged_wf(out@),
            decreases list@.len() - i,
        {
            let ghost before = out@;
            let t = &list[i];
            assert(t.wf());
            out.push(t);
            proof {
                let part = model::views(list@);
                assert(model::views(out@) =~= model::views(before).push(t@));
                assert(part.subrange(0, i + 1) =~= part.subrange(0, i as int).push(t@));
                assert(model::views(out@) =~= start + part.subrange(0, i + 1));
                assert forall|x: int| 0 <= x < out@.len() implies (#[trigger] out@[x]).wf() by {
                    if x < before.len() {
                        assert(out@[x] == before[x]);
                    }
                }
            }
            i = i + 1;
        }
        assert(model::views(list@).subrange(0, list@.len() as int) =~= model::views(list@));
        q = q + 1;
    }
    out
}

/// The tables of the members of a batch.
pub open spec fn batch_tables(members: Seq<BatchMember>, n: int) -> Seq<StagedView>
    decreases n,
{
    if n <= 0 {
        Seq::empty()
    } else {
        batch_tables(members, n - 1) + model::views(members[n - 1].validated.staged@)
    }
}

/// Those that did not join, each with its place, in their order.
pub open spec fn aside_stands(st: &State, m: Seq<PreparedCommit>, aside: Seq<SetAside>) -> bool {
    let rest = left_out(st, m, m.len() as int);
    &&& aside.len() == rest.len()
    &&& forall|q: int| 0 <= q < aside.len() ==> (#[trigger] aside[q]).place == rest[q] && aside[q].commit == m[rest[q]]
}

/// A member of a batch: what was staged, replayed where its records moved on,
/// under its version.
pub open spec fn member_planned(st: &State, c: PreparedCommit, b: BatchMember, version: int) -> bool {
    &&& b.version == version
    &&& b.validated.stands_for(st, c.staged@, c.snapshot)
    &&& b.record@ == wal::record_view(st, model::views(b.validated.staged@), b.version)
    &&& unique::names_fit(model::views(b.validated.staged@))
}

pub open spec fn batch_stands(st: &State, m: Seq<PreparedCommit>, b: Batch) -> bool {
    let places = joined(st, m, m.len() as int);
    &&& b.members@.len() == places.len()
    &&& forall|q: int| 0 <= q < places.len() ==> (#[trigger] b.members@[q]).place == places[q] && member_planned(
        st,
        m[places[q]],
        b.members@[q],
        st.committed_version + 1 + q,
    )
    &&& aside_stands(st, m, b.set_aside@)
    &&& b.incoming_index_bytes == crate::record::capped(joined_incoming(st, m, m.len() as int))
    &&& commit::rules_kept(st, batch_tables(b.members@, b.members@.len() as int))
}

/// The commits cannot even be tried together.
pub open spec fn unbatchable(st: &State, m: Seq<PreparedCommit>, checkpoint_failed: bool, g: MemoryGovernor) -> bool {
    ||| m.len() < 2
    ||| checkpoint_failed
    ||| incoming(m, m.len() as int) > usize::MAX
    ||| memory::saturated(g.index_delta + incoming(m, m.len() as int), usize::MAX as int) > g.limits.index_delta
    ||| !all_match(st, m)
}

/// Taken together, the members that join would break a rule.
pub open spec fn breaks_rule(st: &State, m: Seq<PreparedCommit>, finals: Seq<Vec<PreparedTable>>, checks: Seq<Vec<Vec<Previous>>>, e: ErrorView) -> bool {
    members_stand(st, m, m.len() as int, finals, checks) && commit::rule_error(st, flat(finals, finals.len() as int), e)
}

/// Form a batch of commits, all validated against the committed state and
/// against each other. Nothing changes until the records of its members are in
/// the log.
#[verifier::rlimit(60)]
pub fn finish_coordinated_insert_batch(
    st: &State,
    prepared: Vec<PreparedCommit>,
    checkpoint_failed: bool,
    governor: &MemoryGovernor,
) -> (r: Formed)
    requires
        st.inv(),
        all_ready(prepared@),
    ensures
        match r {
            Formed::HandedBack(back) => back@ == prepared@ && (unbatchable(st, prepared@, checkpoint_failed, *governor) || exists|
                finals: Seq<Vec<PreparedTable>>,
                checks: Seq<Vec<Vec<Previous>>>,
                e: ErrorView,
            | #[trigger] breaks_rule(st, prepared@, finals, checks, e)),
            Formed::Exhausted { places, set_aside } => {
                let joining = joined(st, prepared@, prepared@.len() as int);
                &&& !unbatchable(st, prepared@, checkpoint_failed, *governor)
                &&& st.committed_version + joining.len() > u64::MAX
                &&& places@.len() == joining.len()
                &&& forall|q: int| 0 <= q < places@.len() ==> #[trigger] places@[q] == joining[q]
                &&& aside_stands(st, prepared@, set_aside@)
            },
            Formed::Batch(b) => {
                &&& !unbatchable(st, prepared@, checkpoint_failed, *governor)
                &&& batch_stands(st, prepared@, b)
            },
        },
{
    let ghost m = prepared@;
    let ghost n = m.len() as int;
    if prepared.len() < 2 || checkpoint_failed {
        return Formed::HandedBack(prepared);
    }
    let total: usize = match total_incoming(&prepared) {
        Some(total) => total,
        None => {
            return Formed::HandedBack(prepared);
        },
    };
    if governor.index_would_exceed(total) {
        return Formed::HandedBack(prepared);
    }
    if !all_match_catalog(st, &prepared) {
        return Formed::HandedBack(prepared);
    }
    let Gathered { places, finals, checks, incoming } = gather(st, &prepared);
    let ghost together = flat(finals@, finals@.len() as int);
    let mut failed: bool = false;
    {
        proof {
            assert forall|q: int| 0 <= q < finals@.len() implies staged::tables_wf((#[trigger] finals@[q])@) by {
                let jn = joined(st, m, n);
                assert(member_stands(st, m[jn[q]], finals@[q]@, checks@[q]@));
            }
        }
        let borrowed = borrow_flat(&finals);
        match validate_unique(st, &borrowed) {
            Ok(()) => {},
            Err(e) => {
                assert(breaks_rule(st, m, finals@, checks@, e@));
                failed = true;
            },
        }
        if !failed {
            match validate_foreign_keys(st, &borrowed) {
                Ok(()) => {},
                Err(e) => {
                    assert(breaks_rule(st, m, finals@, checks@, e@));
                    failed = true;
                },
            }
        }
    }
    if failed {
        return Formed::HandedBack(prepared);
    }
    let set_aside = split_aside(st, prepared, &places);
    let count: u64 = places.len() as u64;
    if count > u64::MAX - st.committed_version {
        return Formed::Exhausted { places, set_aside };
    }
    let members = plan_members(st, places, finals, checks, Ghost(m));
    Formed::Batch(Batch { members, set_aside, incoming_index_bytes: incoming })
}

proof fn lemma_joined_prefix(st: &State, m: Seq<PreparedCommit>, k: int, n: int)
    requires
        0 <= k <= n <= m.len(),
    ensures
        joined(st, m, k).len() <= joined(st, m, n).len(),
        forall|q: int| 0 <= q < joined(st, m, k).len() ==> #[trigger] joined(st, m, n)[q] == joined(st, m, k)[q],
    decreases n - k,
{
    if k < n {
        lemma_joined_prefix(st, m, k + 1, n);
        assert forall|q: int| 0 <= q < joined(st, m, k).len() implies #[trigger] joined(st, m, n)[q] == joined(st, m, k)[q] by {
            assert(joined(st, m, k + 1)[q] == joined(st, m, k)[q]);
        }
    }
}

fn split_aside(st: &State, prepared: Vec<PreparedCommit>, places: &Vec<usize>) -> (r: Vec<SetAside>)
    requires
        places@.len() == joined(st, prepared@, prepared@.len() as int).len(),
        forall|q: int| 0 <= q < places@.len() ==> #[trigger] places@[q] == joined(st, prepared@, prepared@.len() as int)[q],
    ensures
        aside_stands(st, prepared@, r@),
{
    let ghost m = prepared@;
    let ghost n = m.len() as int;
    let count: usize = prepared.len();
    let mut rest = prepared;
    let mut out: Vec<SetAside> = Vec::new();
    let mut k: usize = 0;
    let mut q: usize = 0;
    assert(m.subrange(0, n) =~= m);
    while rest.len() > 0
        invariant
            n == m.len(),
            n == count,
            k + rest@.len() == n,
            rest@ == m.subrange(k as int, n),
            places@.len() == joined(st, m, n).len(),
            forall|x: int| 0 <= x < places@.len() ==> #[trigger] places@[x] == joined(st, m, n)[x],
            q == joined(st, m, k as int).len(),
            q <= places@.len(),
            out@.len() == left_out(st, m, k as int).len(),
            forall|x: int|
                0 <= x < out@.len() ==> (#[trigger] out@[x]).place == left_out(st, m, k as int)[x] && out@[x].commit == m[left_out(
                    st,
                    m,
                    k as int,
                )[x]],
        decreases rest@.len(),
    {
        let commit = rest.remove(0);
        let ghost before = out@;
        let ghost a = left_out(st, m, k as int);
        proof {
            assert(commit == m[k as int]);
            assert(rest@ =~= m.subrange(k + 1, n));
            lemma_joined_prefix(st, m, k + 1, n);
            lemma_joined(st, m, n);
        }
        if q < places.len() && places[q] == k {
            proof {
                assert(joined(st, m, n)[q as int] == k);
                assert(joins(st, m, k as int));
            }
            q = q + 1;
        } else {
            proof {
                if joins(st, m, k as int) {
                    assert(joined(st, m, k + 1)[q as int] == k);
                    assert(joined(st, m, n)[q as int] == k);
                }
            }
            out.push(SetAside { place: k, commit });
            proof {
                let b = left_out(st, m, k + 1);
                assert forall|x: int| 0 <= x < out@.len() implies (#[trigger] out@[x]).place == b[x] && out@[x].commit == m[b[x]] by {
                    if x < before.len() {
                        assert(out@[x] == before[x]);
                        assert(b[x] == a[x]);
                    }
                }
            }
        }
        k = k + 1;
    }
    out
}

proof fn lemma_tables_push(members: Seq<BatchMember>, b: BatchMember, n: int)
    requires
        0 <= n <= members.len(),
    ensures
        batch_tables(members.push(b), n) == batch_tables(members, n),
    decreases n,
{
    if n > 0 {
        lemma_tables_push(members, b, n - 1);
    }
}

/// Give the members their versions and their log records.
fn plan_members(
    st: &State,
    places: Vec<usize>,
    finals: Vec<Vec<PreparedTable>>,
    checks: Vec<Vec<Vec<Previous>>>,
    Ghost(m): Ghost<Seq<PreparedCommit>>,
) -> (r: Vec<BatchMember>)
    requires
        st.inv(),
        all_ready(m),
        members_stand(st, m, m.len() as int, finals@, checks@),
        places@.len() == joined(st, m, m.len() as int).len(),
        forall|q: int| 0 <= q < places@.len() ==> #[trigger] places@[q] == joined(st, m, m.len() as int)[q],
        st.committed_version + places@.len() <= u64::MAX,
    ensures
        r@.len() == places@.len(),
        forall|q: int| 0 <= q < r@.len() ==> {
            let c = m[joined(st, m, m.len() as int)[q]];
            (#[trigger] r@[q]).place == joined(st, m, m.len() as int)[q] && member_planned(st, c, r@[q], st.committed_version + 1 + q)
        },
        batch_tables(r@, r@.len() as int) == flat(finals@, finals@.len() as int),
{
    let ghost jn = joined(st, m, m.len() as int);
    let ghost all_finals = finals@;
    let ghost all_checks = checks@;
    let mut finals = finals;
    let mut checks = checks;
    let mut out: Vec<BatchMember> = Vec::new();
    let mut q: usize = 0;
    assert(all_finals.subrange(0, all_finals.len() as int) =~= all_finals);
    assert(all_checks.subrange(0, all_checks.len() as int) =~= all_checks);
    while q < places.len()
        invariant
            st.inv(),
            all_ready(m),
            jn == joined(st, m, m.len() as int),
            members_stand(st, m, m.len() as int, all_finals, all_checks),
            places@.len() == jn.len(),
            forall|q: int| 0 <= q < places@.len() ==> #[trigger] places@[q] == jn[q],
            st.committed_version + places@.len() <= u64::MAX,
            q <= places@.len(),
            finals@ == all_finals.subrange(q as int, all_finals.len() as int),
            checks@ == all_checks.subrange(q as int, all_checks.len() as int),
            out@.len() == q,
            forall|x: int| 0 <= x < q ==> (#[trigger] out@[x]).place == jn[x] && member_planned(
                st,
                m[jn[x]],
                out@[x],
                st.committed_version + 1 + x,
            ),
            batch_tables(out@, q as int) == flat(all_finals, q as int),
        decreases places@.len() - q,
    {
        let staged = finals.remove(0);
        let previous = checks.remove(0);
        let version: u64 = st.committed_version + 1 + q as u64;
        proof {
            assert(staged == all_finals[q as int]);
            assert(previous == all_checks[q as int]);
            assert(finals@ =~= all_finals.subrange(q + 1, all_finals.len() as int));
            assert(checks@ =~= all_checks.subrange(q + 1, all_checks.len() as int));
            let c = m[jn[q as int]];
            assert(member_stands(st, c, all_finals[q as int]@, all_checks[q as int]@));
            lemma_joined(st, m, m.len() as int);
            assert(all_ready(m) && 0 <= jn[q as int] < m.len());
            commit::lemma_final_ids(st, c.staged@, previous@, c.snapshot);
        }
        let record = encode_commit(st, version, &staged);
        let ghost before = out@;
        let member = BatchMember { place: places[q], version, validated: Validated { staged, previous }, record };
        assert(member_planned(st, m[jn[q as int]], member, st.committed_version + 1 + q));
        out.push(member);
        proof {
            lemma_tables_push(before, member, q as int);
            assert forall|x: int| 0 <= x < out@.len() implies (#[trigger] out@[x]).place == jn[x] && member_planned(
                st,
                m[jn[x]],
                out@[x],
                st.committed_version + 1 + x,
            ) by {
                if x < q {
                    assert(out@[x] == before[x]);
                }
            }
        }
        q = q + 1;
    }
    out
}

// ---- Publishing the batch ---------------------------------------------------

/// Each state follows from the one before it by the commit of a member.
pub open spec fn is_chain(states: Seq<State>, members: Seq<BatchMember>) -> bool {
    &&& states.len() == members.len() + 1
    &&& forall|k: int| 0 <= k < members.len() ==> #[trigger] member_published(states, members, k)
}

pub open spec fn member_published(states: Seq<State>, members: Seq<BatchMember>, k: int) -> bool {
    publish::published(
        &states[k],
        &states[k + 1],
        model::views(members[k].validated.staged@),
        publish::previous_views(members[k].validated.previous@),
        members[k].version,
    )
}

pub open spec fn batch_reached(before: State, after: State, members: Seq<BatchMember>) -> bool {
    exists|states: Seq<State>| #[trigger] is_chain(states, members) && states[0] == before && states.last() == after
}

pub open spec fn member_ready(b: BatchMember) -> bool {
    &&& staged::tables_wf(b.validated.staged@)
    &&& publish::previous_fits(b.validated.staged@, b.validated.previous@)
    &&& unique::names_fit(model::views(b.validated.staged@))
}

pub open spec fn member_steps(b: BatchMember) -> Seq<crate::apply::Step> {
    publish::steps(model::views(b.validated.staged@), publish::previous_views(b.validated.previous@))
}

/// What the first `n` members mean to text and vector indexes.
pub open spec fn batch_events(members: Seq<BatchMember>, n: int) -> Seq<crate::apply::EventView>
    decreases n,
{
    if n <= 0 {
        Seq::empty()
    } else {
        batch_events(members, n - 1) + publish::events_of(member_steps(members[n - 1]))
    }
}

/// How much the first `n` members add and make obsolete; each member counts at
/// most the greatest number.
pub open spec fn batch_added(members: Seq<BatchMember>, n: int) -> int
    decreases n,
{
    if n <= 0 {
        0
    } else {
        segment::capped64(
            batch_added(members, n - 1) + segment::capped64(publish::added_bytes(member_steps(members[n - 1]))),
        )
    }
}

/// What the first `n` members make obsolete: operations and bytes.
pub open spec fn batch_obsolete(members: Seq<BatchMember>, n: int) -> (int, int)
    decreases n,
{
    if n <= 0 {
        (0, 0)
    } else {
        let a = batch_obsolete(members, n - 1);
        let b = publish::all_obsolete(
            model::views(members[n - 1].validated.staged@),
            publish::previous_views(members[n - 1].validated.previous@),
            members[n - 1].validated.staged@.len() as int,
        );
        (segment::capped64(a.0 + segment::capped64(b.0)), segment::capped64(a.1 + segment::capped64(b.1)))
    }
}

fn append_events(events: &mut Vec<crate::apply::IndexEvent>, more: Vec<crate::apply::IndexEvent>)
    ensures
        model::views(final(events)@) == model::views(old(events)@) + model::views(more@),
{
    let ghost start = events@;
    let ghost tail = more@;
    let mut more = more;
    events.append(&mut more);
    assert(model::views(events@) =~= model::views(start) + model::views(tail));
}

/// Publish the members of a batch, one version after another. The last result
/// says whether enough has gathered for a checkpoint.
pub fn publish_batch(
    st: &mut State,
    batch: &Batch,
    load: &mut crate::pipeline::WriterLoad,
    governor: &mut MemoryGovernor,
    memtable_max_bytes: u64,
) -> (r: (Published, bool))
    requires
        old(st).wf(),
        forall|k: int| 0 <= k < batch.members@.len() ==> member_ready(#[trigger] batch.members@[k]),
        old(governor).wf(),
    ensures
        batch_reached(*old(st), *final(st), batch.members@),
        final(st).wf(),
        model::views(r.0.events@) == batch_events(batch.members@, batch.members@.len() as int),
        r.0.added == batch_added(batch.members@, batch.members@.len() as int),
        r.0.obsolete_operations == batch_obsolete(batch.members@, batch.members@.len() as int).0,
        r.0.obsolete_bytes == batch_obsolete(batch.members@, batch.members@.len() as int).1,
        final(load).memtable_bytes == segment::capped64(old(load).memtable_bytes + r.0.added),
        r.1 == (final(load).memtable_bytes >= memtable_max_bytes),
        final(governor).wf(),
        *final(governor) == old(governor).with_delta(batch.incoming_index_bytes as int),
{
    let ghost members = batch.members@;
    let ghost mut states: Seq<State> = seq![*st];
    let mut events: Vec<crate::apply::IndexEvent> = Vec::new();
    let mut added: u64 = 0;
    let mut operations: u64 = 0;
    let mut bytes: u64 = 0;
    let mut k: usize = 0;
    assert(model::views(events@) =~= Seq::<crate::apply::EventView>::empty());
    while k < batch.members.len()
        invariant
            st.wf(),
            members == batch.members@,
            forall|k: int| 0 <= k < members.len() ==> member_ready(#[trigger] members[k]),
            k <= members.len(),
            states.len() == k + 1,
            states[0] == *old(st),
            states[k as int] == *st,
            forall|x: int| 0 <= x < k ==> #[trigger] member_published(states, members, x),
            model::views(events@) == batch_events(members, k as int),
            added == batch_added(members, k as int),
            operations == batch_obsolete(members, k as int).0,
            bytes == batch_obsolete(members, k as int).1,
        decreases members.len() - k,
    {
        let b = &batch.members[k];
        let ghost before = states;
        proof {
            assert(member_ready(members[k as int]));
            let all = model::views(b.validated.staged@);
            assert forall|i: int| 0 <= i < b.validated.staged@.len() implies encode_utf8((#[trigger] b.validated.staged@[i]).name@).len()
                <= u32::MAX by {
                assert(all[i].name == b.validated.staged@[i].name@);
            }
        }
        let done = st.publish(b.version, &b.validated.staged, &b.validated.previous);
        append_events(&mut events, done.events);
        added = added.saturating_add(done.added);
        operations = operations.saturating_add(done.obsolete_operations);
        bytes = bytes.saturating_add(done.obsolete_bytes);
        proof {
            states = states.push(*st);
            assert forall|x: int| 0 <= x < k + 1 implies #[trigger] member_published(states, members, x) by {
                if x < k {
                    assert(member_published(before, members, x));
                    assert(states[x] == before[x] && states[x + 1] == before[x + 1]);
                }
            }
        }
        k = k + 1;
    }
    assert(is_chain(states, members));
    load.memtable_bytes = load.memtable_bytes.saturating_add(added);
    governor.add_index_delta_bytes(batch.incoming_index_bytes);
    let full: bool = load.memtable_bytes >= memtable_max_bytes;
    (Published { events, added, obsolete_operations: operations, obsolete_bytes: bytes }, full)
}

/// A record that no member before a member changes is, when that member is
/// published, as it was before the batch: what was found out about it while the
/// batch formed still holds.
pub proof fn lemma_batch_untouched(states: Seq<State>, members: Seq<BatchMember>, k: int, table: Seq<char>, id: Seq<char>, max: u64)
    requires
        is_chain(states, members),
        0 <= k < members.len(),
        forall|x: int| 0 <= x < k ==> member_ready(#[trigger] members[x]) && !staged::has_change(
            model::views(members[x].validated.staged@),
            table,
            id,
        ),
        encode_utf8(table).len() <= u32::MAX,
    ensures
        states[k].visible(table, encode_utf8(id), max) == states[0].visible(table, encode_utf8(id), max),
        states[k].row(table, id, max) == states[0].row(table, id, max),
    decreases k,
{
    if k > 0 {
        lemma_batch_untouched(states, members, k - 1, table, id, max);
        assert(member_published(states, members, k - 1));
        assert(member_ready(members[k - 1]));
        crate::commit_laws::lemma_untouched(
            &states[k - 1],
            &states[k],
            model::views(members[k - 1].validated.staged@),
            publish::previous_views(members[k - 1].validated.previous@),
            members[k - 1].version,
            table,
            id,
            max,
        );
    }
}

// ---- What the members are told ----------------------------------------------

/// How the log and the disk took a batch.
pub enum BatchFate {
    Written,
    AppendFailed(String),
    /// The batch was published but could not be synced.
    SyncFailed(String),
    Exhausted,
}

pub open spec fn fate_of(fate: BatchFate, version: u64) -> Result<u64, ErrorView> {
    match fate {
        BatchFate::Written => Ok(version),
        BatchFate::AppendFailed(m) => Err(ErrorView::Io("coordinated WAL append failed: "@ + m@)),
        BatchFate::SyncFailed(m) => Err(
            ErrorView::CommitUnknown(
                "version "@ + text::decimal(version as nat) + " was published, but syncing its coordinated WAL batch failed: "@ + m@,
            ),
        ),
        BatchFate::Exhausted => Err(ErrorView::InvalidArgument("commit version space is exhausted"@)),
    }
}

/// What a member of a batch is told.
pub fn member_outcome(fate: &BatchFate, version: u64) -> (r: Result<u64, Error>)
    ensures
        match fate_of(*fate, version) {
            Ok(v) => r == Ok::<u64, Error>(v),
            Err(e) => r is Err && r->Err_0@ == e,
        },
{
    match fate {
        BatchFate::Written => Ok(version),
        BatchFate::AppendFailed(m) => Err(Error::Io("coordinated WAL append failed: ".to_owned().concat(m.as_str()))),
        BatchFate::SyncFailed(m) => Err(
            Error::CommitUnknown(
                "version ".to_owned().concat(decimal_text(version).as_str()).concat(
                    " was published, but syncing its coordinated WAL batch failed: ",
                ).concat(m.as_str()),
            ),
        ),
        BatchFate::Exhausted => Err(Error::InvalidArgument("commit version space is exhausted".to_owned())),
    }
}

} // verus!
