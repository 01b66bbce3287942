//! What a published commit means to readers and indexes.

use crate::apply::{self, Step};
use crate::bytes;
use crate::commit;
use crate::error::{Error, ErrorView};
use crate::payload;
use crate::prepare;
use crate::primary;
use crate::publish::{self, PreviousView};
use crate::record::{self, Record, RecordView};
use crate::schema::TableView;
use crate::secondary::{self, PairChange};
use crate::segment;
use crate::staged::{self, ChangeView, PreparedChange, Replay, StagedView};
use crate::state::{self, SecSlot, State};
use crate::value::StoredView;
use crate::version::{self, VersionView};
use vstd::prelude::*;
use vstd::utf8::*;

verus! {

/// The versions that the changes add under a key.
pub open spec fn entries_for(list: Seq<Step>, key: Seq<u8>, version: u64) -> Seq<VersionView>
    decreases list.len(),
{
    if list.len() == 0 {
        Seq::empty()
    } else if apply::step_key(list.last()) == key {
        entries_for(list.drop_last(), key, version).push(apply::step_entry(list.last(), version))
    } else {
        entries_for(list.drop_last(), key, version)
    }
}

pub proof fn lemma_resident_after(delta: Map<Seq<u8>, Seq<VersionView>>, list: Seq<Step>, version: u64, key: Seq<u8>)
    ensures
        primary::resident(publish::delta_after(delta, list, version), key) == primary::resident(delta, key) + entries_for(
            list,
            key,
            version,
        ),
    decreases list.len(),
{
    if list.len() > 0 {
        lemma_resident_after(delta, list.drop_last(), version, key);
        let mid = publish::delta_after(delta, list.drop_last(), version);
        let e = apply::step_entry(list.last(), version);
        if apply::step_key(list.last()) == key {
            assert(primary::resident(delta, key) + entries_for(list, key, version) =~= primary::resident(mid, key).push(e));
        }
    } else {
        assert(primary::resident(delta, key) + Seq::<VersionView>::empty() =~= primary::resident(delta, key));
    }
}

pub proof fn lemma_entries_for(list: Seq<Step>, key: Seq<u8>, version: u64)
    ensures
        forall|i: int| 0 <= i < entries_for(list, key, version).len() ==> (#[trigger] entries_for(list, key, version)[i]).version
            == version,
        (forall|i: int| 0 <= i < list.len() ==> apply::step_key(#[trigger] list[i]) != key) ==> entries_for(list, key, version).len()
            == 0,
    decreases list.len(),
{
    if list.len() > 0 {
        let t = list.drop_last();
        lemma_entries_for(t, key, version);
        if forall|i: int| 0 <= i < list.len() ==> apply::step_key(#[trigger] list[i]) != key {
            assert forall|i: int| 0 <= i < t.len() implies apply::step_key(#[trigger] t[i]) != key by {
                assert(apply::step_key(list[i]) != key);
            }
            assert(apply::step_key(list[list.len() - 1]) != key);
        }
    }
}

/// No record is changed twice.
pub open spec fn keys_distinct(list: Seq<Step>) -> bool {
    forall|i: int, j: int|
        0 <= i < list.len() && 0 <= j < list.len() && apply::step_key(#[trigger] list[i]) == apply::step_key(#[trigger] list[j]) ==> i
            == j
}

pub proof fn lemma_one_entry(list: Seq<Step>, k: int, version: u64)
    requires
        keys_distinct(list),
        0 <= k < list.len(),
    ensures
        entries_for(list, apply::step_key(list[k]), version) == seq![apply::step_entry(list[k], version)],
    decreases list.len(),
{
    let key = apply::step_key(list[k]);
    let t = list.drop_last();
    assert forall|i: int, j: int| 0 <= i < t.len() && 0 <= j < t.len() && apply::step_key(#[trigger] t[i]) == apply::step_key(
        #[trigger] t[j],
    ) implies i == j by {
        assert(apply::step_key(list[i]) == apply::step_key(list[j]));
    }
    if k == list.len() - 1 {
        assert forall|i: int| 0 <= i < t.len() implies apply::step_key(#[trigger] t[i]) != key by {
            if apply::step_key(list[i]) == key {
                assert(list[i] == t[i]);
                assert(i == k);
            }
        }
        lemma_entries_for(t, key, version);
        assert(entries_for(list, key, version) =~= seq![apply::step_entry(list[k], version)]);
    } else {
        assert(t[k] == list[k]);
        lemma_one_entry(t, k, version);
        if apply::step_key(list.last()) == key {
            assert(list[list.len() - 1] == list.last());
            assert(apply::step_key(list[k]) == apply::step_key(list[list.len() - 1]));
        }
    }
}

/// The versions of a record after a commit: those before it, and what the
/// commit added.
pub proof fn lemma_versions_after(before: &State, after: &State, list: Seq<Step>, version: u64, table: Seq<char>, id: Seq<u8>)
    requires
        publish::changed(before, after, list, version),
    ensures
        ({
            let key = version::key_of(encode_utf8(table), id);
            match before.versions(table, id) {
                Err(m) => after.versions(table, id) == Err::<Seq<VersionView>, Seq<char>>(m),
                Ok(s) => after.versions(table, id) == Ok::<Seq<VersionView>, Seq<char>>(s + entries_for(list, key, version)),
            }
        }),
{
    let key = version::key_of(encode_utf8(table), id);
    lemma_resident_after(before.index.delta@, list, version, key);
    match before.versions(table, id) {
        Err(_) => {},
        Ok(s) => {
            assert(after.versions(table, id)->Ok_0 =~= s + entries_for(list, key, version));
        },
    }
}

/// Versions past a reader's own change nothing for the reader.
proof fn lemma_newest_past(s: Seq<VersionView>, more: Seq<VersionView>, max: u64)
    requires
        forall|i: int| 0 <= i < more.len() ==> (#[trigger] more[i]).version > max,
    ensures
        primary::newest_of(s + more, max) == primary::newest_of(s, max),
    decreases more.len(),
{
    if more.len() > 0 {
        let t = more.drop_last();
        assert forall|i: int| 0 <= i < t.len() implies (#[trigger] t[i]).version > max by {
            assert(more[i].version > max);
        }
        lemma_newest_past(s, t, max);
        assert((s + more).drop_last() =~= s + t);
        assert((s + more).last() == more[more.len() - 1]);
    } else {
        assert(s + more =~= s);
    }
}

/// A commit changes nothing for a reader at an earlier version: snapshots are
/// stable.
pub proof fn lemma_snapshots_stable(
    before: &State,
    after: &State,
    staged: Seq<StagedView>,
    p: Seq<Seq<PreviousView>>,
    version: u64,
    table: Seq<char>,
    id: Seq<char>,
    max: u64,
)
    requires
        publish::published(before, after, staged, p, version),
        max < version,
    ensures
        after.visible(table, encode_utf8(id), max) == before.visible(table, encode_utf8(id), max),
        after.row(table, id, max) == before.row(table, id, max),
{
    let list = publish::steps(staged, p);
    let key = version::key_of(encode_utf8(table), encode_utf8(id));
    lemma_versions_after(before, after, list, version, table, encode_utf8(id));
    lemma_entries_for(list, key, version);
    match before.versions(table, encode_utf8(id)) {
        Err(_) => {},
        Ok(s) => {
            lemma_newest_past(s, entries_for(list, key, version), max);
        },
    }
}

/// A record that a commit does not touch is the same for every reader.
pub proof fn lemma_untouched(
    before: &State,
    after: &State,
    staged: Seq<StagedView>,
    p: Seq<Seq<PreviousView>>,
    version: u64,
    table: Seq<char>,
    id: Seq<char>,
    max: u64,
)
    requires
        publish::published(before, after, staged, p, version),
        encode_utf8(table).len() <= u32::MAX,
        forall|i: int| 0 <= i < staged.len() ==> encode_utf8((#[trigger] staged[i]).name).len() <= u32::MAX,
        !staged::has_change(staged, table, id),
    ensures
        after.visible(table, encode_utf8(id), max) == before.visible(table, encode_utf8(id), max),
        after.row(table, id, max) == before.row(table, id, max),
{
    let list = publish::steps(staged, p);
    let key = version::key_of(encode_utf8(table), encode_utf8(id));
    assert forall|k: int| 0 <= k < list.len() implies apply::step_key(#[trigger] list[k]) != key by {
        let (i, j) = lemma_step_place(staged, p, k);
        let s = list[k];
        if apply::step_key(s) == key {
            version::lemma_key_injective(encode_utf8(s.table), encode_utf8(s.id), encode_utf8(table), encode_utf8(id));
            bytes::lemma_utf8_injective(s.table, table);
            bytes::lemma_utf8_injective(s.id, id);
            assert(staged::stages(staged, i, j, table, id));
        }
    }
    lemma_entries_for(list, key, version);
    lemma_versions_after(before, after, list, version, table, encode_utf8(id));
    match before.versions(table, encode_utf8(id)) {
        Err(_) => {},
        Ok(s) => {
            assert(s + entries_for(list, key, version) =~= s);
        },
    }
}

// ---- Where the changes stand ------------------------------------------------

proof fn lemma_table_steps(t: StagedView, p: Seq<PreviousView>, n: int)
    requires
        0 <= n,
    ensures
        publish::table_steps(t, p, n).len() == n,
        forall|j: int| 0 <= j < n ==> #[trigger] publish::table_steps(t, p, n)[j] == publish::step_of(t, p, j),
    decreases n,
{
    if n > 0 {
        lemma_table_steps(t, p, n - 1);
    }
}

/// The position at which the changes of the `n`th table begin.
pub open spec fn first_step(staged: Seq<StagedView>, n: int) -> int
    decreases n,
{
    if n <= 0 {
        0
    } else {
        first_step(staged, n - 1) + staged[n - 1].changes.len()
    }
}

/// One of the first `n` tables has a change at a position.
pub open spec fn has_place(staged: Seq<StagedView>, n: int, k: int) -> bool {
    exists|i: int, j: int| 0 <= i < n && #[trigger] staged::is_staged(staged, i, j) && k == first_step(staged, i) + j
}

pub proof fn lemma_all_steps(staged: Seq<StagedView>, p: Seq<Seq<PreviousView>>, n: int)
    requires
        0 <= n <= staged.len(),
    ensures
        publish::all_steps(staged, p, n).len() == first_step(staged, n),
        forall|i: int, j: int|
            0 <= i < n && #[trigger] staged::is_staged(staged, i, j) ==> 0 <= first_step(staged, i) + j < first_step(staged, n)
                && publish::all_steps(staged, p, n)[first_step(staged, i) + j] == publish::step_of(staged[i], p[i], j),
        forall|k: int| 0 <= k < first_step(staged, n) ==> #[trigger] has_place(staged, n, k),
    decreases n,
{
    if n > 0 {
        lemma_all_steps(staged, p, n - 1);
        let t = staged[n - 1];
        let m = t.changes.len() as int;
        lemma_table_steps(t, p[n - 1], m);
        let a = publish::all_steps(staged, p, n - 1);
        let b = publish::table_steps(t, p[n - 1], m);
        assert(publish::all_steps(staged, p, n) == a + b);
        assert forall|i: int, j: int| 0 <= i < n && #[trigger] staged::is_staged(staged, i, j) implies 0 <= first_step(staged, i) + j
            < first_step(staged, n) && publish::all_steps(staged, p, n)[first_step(staged, i) + j] == publish::step_of(
            staged[i],
            p[i],
            j,
        ) by {
            if i == n - 1 {
                assert((a + b)[a.len() + j] == b[j]);
            } else {
                assert((a + b)[first_step(staged, i) + j] == a[first_step(staged, i) + j]);
            }
        }
        assert forall|k: int| 0 <= k < first_step(staged, n) implies #[trigger] has_place(staged, n, k) by {
            if k < first_step(staged, n - 1) {
                assert(has_place(staged, n - 1, k));
                let (i, j) = choose|i: int, j: int|
                    0 <= i < n - 1 && #[trigger] staged::is_staged(staged, i, j) && k == first_step(staged, i) + j;
                assert(0 <= i < n && staged::is_staged(staged, i, j));
            } else {
                assert(staged::is_staged(staged, n - 1, k - first_step(staged, n - 1)));
            }
        }
    }
}

/// The change that a step stands for.
pub proof fn lemma_step_place(staged: Seq<StagedView>, p: Seq<Seq<PreviousView>>, k: int) -> (r: (int, int))
    requires
        0 <= k < publish::steps(staged, p).len(),
    ensures
        staged::is_staged(staged, r.0, r.1),
        k == first_step(staged, r.0) + r.1,
        publish::steps(staged, p)[k] == publish::step_of(staged[r.0], p[r.0], r.1),
{
    let n = staged.len() as int;
    lemma_all_steps(staged, p, n);
    assert(has_place(staged, n, k));
    let (i, j) = choose|i: int, j: int| 0 <= i < n && #[trigger] staged::is_staged(staged, i, j) && k == first_step(staged, i) + j;
    (i, j)
}

pub proof fn lemma_keys_distinct(staged: Seq<StagedView>, p: Seq<Seq<PreviousView>>)
    requires
        staged::changes_distinct(staged),
        forall|i: int| 0 <= i < staged.len() ==> encode_utf8((#[trigger] staged[i]).name).len() <= u32::MAX,
    ensures
        keys_distinct(publish::steps(staged, p)),
{
    let list = publish::steps(staged, p);
    assert forall|k: int, l: int| 0 <= k < list.len() && 0 <= l < list.len() && apply::step_key(#[trigger] list[k]) == apply::step_key(
        #[trigger] list[l],
    ) implies k == l by {
        let (i, j) = lemma_step_place(staged, p, k);
        let (a, b) = lemma_step_place(staged, p, l);
        version::lemma_key_injective(
            encode_utf8(list[k].table),
            encode_utf8(list[k].id),
            encode_utf8(list[l].table),
            encode_utf8(list[l].id),
        );
        bytes::lemma_utf8_injective(list[k].table, list[l].table);
        bytes::lemma_utf8_injective(list[k].id, list[l].id);
        assert(staged::is_staged(staged, i, j) && staged::is_staged(staged, a, b));
    }
}

/// A reader at the version of a commit, or a later one while nothing newer is
/// committed, sees every change of it.
pub proof fn lemma_reads_commit(
    before: &State,
    after: &State,
    staged: Seq<StagedView>,
    p: Seq<Seq<PreviousView>>,
    version: u64,
    i: int,
    j: int,
    max: u64,
)
    requires
        before.versions_ok(),
        publish::published(before, after, staged, p, version),
        before.committed_version < version <= max,
        staged::changes_distinct(staged),
        forall|i: int| 0 <= i < staged.len() ==> encode_utf8((#[trigger] staged[i]).name).len() <= u32::MAX,
        staged::is_staged(staged, i, j),
        before.table_view(staged[i].name) matches Some(t) && t.epoch < version,
        before.versions(staged[i].name, encode_utf8(staged[i].changes[j].id)) is Ok,
    ensures
        after.visible(staged[i].name, encode_utf8(staged[i].changes[j].id), max) == Ok::<Option<VersionView>, Seq<char>>(
            Some(apply::step_entry(publish::step_of(staged[i], p[i], j), version)),
        ),
{
    let list = publish::steps(staged, p);
    let table = staged[i].name;
    let id = encode_utf8(staged[i].changes[j].id);
    let key = version::key_of(encode_utf8(table), id);
    lemma_all_steps(staged, p, staged.len() as int);
    let k = first_step(staged, i) + j;
    assert(list[k] == publish::step_of(staged[i], p[i], j));
    lemma_keys_distinct(staged, p);
    lemma_one_entry(list, k, version);
    assert(apply::step_key(list[k]) == key);
    lemma_versions_after(before, after, list, version, table, id);
    let s = before.versions(table, id)->Ok_0;
    let e = apply::step_entry(list[k], version);
    assert(s + seq![e] =~= s.push(e));
    assert(before.index.entries(key) is Ok);
    state::lemma_reads_write(s, e, max, before.table_view(table)->0.epoch);
}

/// A reader at the version of a commit gets the record that was put, with the
/// value of every column or null, and nothing where it was deleted.
pub proof fn lemma_reads_record(
    before: &State,
    after: &State,
    staged: Seq<StagedView>,
    p: Seq<Seq<PreviousView>>,
    version: u64,
    i: int,
    j: int,
    external: Seq<Option<StoredView>>,
    max: u64,
)
    requires
        before.versions_ok(),
        publish::published(before, after, staged, p, version),
        before.committed_version < version <= max,
        staged::changes_distinct(staged),
        forall|i: int| 0 <= i < staged.len() ==> encode_utf8((#[trigger] staged[i]).name).len() <= u32::MAX,
        staged::is_staged(staged, i, j),
        before.table_view(staged[i].name) == Some(staged[i].schema),
        staged[i].schema.epoch < version,
        before.versions(staged[i].name, encode_utf8(staged[i].changes[j].id)) is Ok,
        match staged[i].changes[j].operation {
            None => staged[i].changes[j].payload is None,
            Some(rec) => {
                &&& record::record_fits(staged[i].schema.columns, rec, external)
                &&& record::references_kept(staged[i].schema.columns, rec, external, before.blobs@)
                &&& staged[i].changes[j].payload == Some(
                    payload::payload_bytes(record::ordered_fields(staged[i].schema.columns, rec, external)),
                )
            },
        },
    ensures
        after.row(staged[i].name, staged[i].changes[j].id, max) == Ok::<Option<RecordView>, ErrorView>(
            match staged[i].changes[j].operation {
                None => None,
                Some(rec) => Some(
                    state::with_id(
                        staged[i].schema,
                        record::projected(staged[i].schema.columns, rec),
                        staged[i].changes[j].id,
                    ),
                ),
            },
        ),
{
    lemma_reads_commit(before, after, staged, p, version, i, j, max);
    match staged[i].changes[j].operation {
        None => {},
        Some(rec) => {
            record::lemma_record_round_trip(staged[i].schema.columns, rec, external, before.blobs@);
        },
    }
}

/// The changes of each table stand in the order of their ids.
pub open spec fn changes_sorted(staged: Seq<StagedView>) -> bool {
    forall|i: int, j: int, k: int|
        #[trigger] staged::is_staged(staged, i, j) && #[trigger] staged::is_staged(staged, i, k) && j < k ==> bytes::lex_lt(
            encode_utf8(staged[i].changes[j].id),
            encode_utf8(staged[i].changes[k].id),
        )
}

/// An id stands above what is recorded as the greatest.
pub open spec fn above(high: Map<Seq<u8>, Seq<char>>, table: Seq<char>, id: Seq<u8>) -> bool {
    !high.contains_key(encode_utf8(table)) || bytes::lex_lt(encode_utf8(high[encode_utf8(table)]), id)
}

proof fn lemma_highs_after(high: Map<Seq<u8>, Seq<char>>, staged: Seq<StagedView>, n: int, table: Seq<char>, id: Seq<u8>)
    requires
        0 <= n <= staged.len(),
        changes_sorted(staged),
        above(publish::highs_after(high, staged, n), table, id),
    ensures
        above(high, table, id),
        forall|i: int, j: int|
            0 <= i < n && #[trigger] staged::is_staged(staged, i, j) && staged[i].name == table ==> bytes::lex_lt(
                encode_utf8(staged[i].changes[j].id),
                id,
            ),
    decreases n,
{
    if n > 0 {
        let h = publish::highs_after(high, staged, n - 1);
        let t = staged[n - 1];
        let key = encode_utf8(table);
        if t.changes.len() > 0 {
            let last = t.changes.last().id;
            let tk = encode_utf8(t.name);
            bytes::lemma_utf8_injective(t.name, table);
            if !h.contains_key(tk) || bytes::lex_lt(encode_utf8(h[tk]), encode_utf8(last)) {
                if t.name == table {
                    if h.contains_key(key) {
                        bytes::lemma_lex_transitive(encode_utf8(h[key]), encode_utf8(last), id);
                    }
                }
            } else {
                if t.name == table {
                    bytes::lemma_lex_trichotomy(encode_utf8(h[tk]), encode_utf8(last));
                    if encode_utf8(last) != encode_utf8(h[tk]) {
                        bytes::lemma_lex_transitive(encode_utf8(last), encode_utf8(h[tk]), id);
                    }
                }
            }
            assert(above(h, table, id));
            if t.name == table {
                assert(bytes::lex_lt(encode_utf8(last), id));
                assert forall|j: int| #[trigger] staged::is_staged(staged, n - 1, j) implies bytes::lex_lt(
                    encode_utf8(t.changes[j].id),
                    id,
                ) by {
                    if j < t.changes.len() - 1 {
                        assert(staged::is_staged(staged, n - 1, t.changes.len() - 1));
                        bytes::lemma_lex_transitive(encode_utf8(t.changes[j].id), encode_utf8(last), id);
                    }
                }
            }
        }
        lemma_highs_after(high, staged, n - 1, table, id);
    }
}

/// Publishing a commit keeps the invariant of the committed state.
pub proof fn lemma_invariant_kept(
    before: &State,
    after: &State,
    staged: Seq<StagedView>,
    p: Seq<Seq<PreviousView>>,
    version: u64,
)
    requires
        before.inv(),
        publish::published(before, after, staged, p, version),
        before.committed_version < version,
        staged::changes_distinct(staged),
        changes_sorted(staged),
        staged::schemas_current(before, staged),
    ensures
        after.inv(),
{
    let list = publish::steps(staged, p);
    assert forall|i: int| 0 <= i < staged.len() implies encode_utf8((#[trigger] staged[i]).name).len() <= u32::MAX by {
        before.lemma_table(staged[i].name);
    }
    lemma_keys_distinct(staged, p);
    assert forall|key: Seq<u8>| (#[trigger] after.index.entries(key)) matches Ok(s) ==> primary::consistent(s) && forall|i: int|
        0 <= i < s.len() ==> (#[trigger] s[i]).version <= after.committed_version by {
        lemma_resident_after(before.index.delta@, list, version, key);
        lemma_entries_for(list, key, version);
        let more = entries_for(list, key, version);
        match before.index.entries(key) {
            Err(_) => {},
            Ok(s) => {
                let t = after.index.entries(key)->Ok_0;
                assert(t =~= s + more);
                assert(more.len() <= 1) by {
                    if exists|k: int| 0 <= k < list.len() && apply::step_key(#[trigger] list[k]) == key {
                        let k = choose|k: int| 0 <= k < list.len() && apply::step_key(#[trigger] list[k]) == key;
                        lemma_one_entry(list, k, version);
                    }
                }
                assert forall|i: int, j: int| 0 <= i < t.len() && 0 <= j < t.len() && (#[trigger] t[i]).version == (
                #[trigger] t[j]).version implies t[i] == t[j] by {
                    if i < s.len() {
                        assert(t[i] == s[i]);
                    } else {
                        assert(t[i] == more[i - s.len()]);
                    }
                    if j < s.len() {
                        assert(t[j] == s[j]);
                    } else {
                        assert(t[j] == more[j - s.len()]);
                    }
                }
                assert forall|i: int| 0 <= i < t.len() implies (#[trigger] t[i]).version <= after.committed_version by {
                    if i < s.len() {
                        assert(t[i] == s[i]);
                    } else {
                        assert(t[i] == more[i - s.len()]);
                    }
                }
            },
        }
    }
    assert forall|table: Seq<char>, id: Seq<u8>| #[trigger] after.above_high(table, id) implies after.latest(table, id) == Ok::<
        Option<VersionView>,
        Seq<char>,
    >(None) by {
        lemma_highs_after(before.high_ids@, staged, staged.len() as int, table, id);
        assert(before.above_high(table, id));
        let key = version::key_of(encode_utf8(table), id);
        if before.table_view(table) is Some {
            before.lemma_table(table);
            assert forall|k: int| 0 <= k < list.len() implies apply::step_key(#[trigger] list[k]) != key by {
                let (i, j) = lemma_step_place(staged, p, k);
                if apply::step_key(list[k]) == key {
                    version::lemma_key_injective(encode_utf8(list[k].table), encode_utf8(list[k].id), encode_utf8(table), id);
                    bytes::lemma_utf8_injective(list[k].table, table);
                    assert(staged::is_staged(staged, i, j));
                    bytes::lemma_lex_irreflexive(id);
                }
            }
            lemma_entries_for(list, key, version);
            lemma_versions_after(before, after, list, version, table, id);
            let s = before.versions(table, id)->Ok_0;
            assert(s + entries_for(list, key, version) =~= s);
        }
    }
}

// ---- Replays ----------------------------------------------------------------

/// A change that was replayed over the newest version of its record is accepted
/// on the state that it was replayed on, with what the replay made of it, even
/// though the record changed after the transaction began; where the replay came
/// to nothing, that conflict stands.
pub proof fn lemma_replay_accepted<F: Fn(&str, &Record) -> Result<Option<Record>, Error>>(
    st: &State,
    t: TableView,
    id: &str,
    steps: Seq<F>,
    v: VersionView,
    p: Replay,
    c: PreparedChange,
    snapshot: u64,
)
    requires
        c.id@ == id@,
        st.latest(t.name, encode_utf8(id@)) == Ok::<Option<VersionView>, Seq<char>>(Some(v)),
        prepare::replayed_over(st, t, id, steps, v, Ok(Some(p))),
        c.replay == Some(p),
    ensures
        match p.outcome {
            Some(done) => {
                &&& commit::checked_change(st, t, c, snapshot) matches Ok(prev) && prev.entry == Some(v)
                &&& v.version > snapshot ==> commit::final_change(t, c, commit::checked_change(st, t, c, snapshot)->Ok_0, snapshot) == (
                ChangeView { id: id@, operation: Some(done.record@), payload: Some(done.payload@) })
            },
            None => v.version > snapshot ==> commit::checked_change(st, t, c, snapshot) == Err::<PreviousView, ErrorView>(
                commit::changed_message(t.name, id@),
            ),
        },
{
}

// ---- Equality indexes -------------------------------------------------------

/// The key that the newest version of a record has in a column.
pub open spec fn current_key(st: &State, table: Seq<char>, column: Seq<char>, id: Seq<char>) -> Option<Seq<u8>> {
    match st.latest(table, encode_utf8(id)) {
        Ok(Some(v)) => match segment::record_of(st.images(), st.blobs@, v.kind) {
            Ok(rec) => staged::key_in(rec, column),
            Err(_) => None,
        },
        _ => None,
    }
}

/// The index lists exactly the records with the value that is looked up.
pub open spec fn index_agrees(st: &State, slot: SecSlot) -> bool {
    forall|id: Seq<char>, key: Seq<u8>|
        key.len() <= u32::MAX ==> (#[trigger] slot.index.member(key, encode_utf8(id)) <==> current_key(st, slot.table@, slot.column@, id)
            == Some(key))
}

/// The payload of every change holds the record of the change, and what is
/// taken out of the indexes is the record that was there.
pub open spec fn changes_true(st: &State, staged: Seq<StagedView>, p: Seq<Seq<PreviousView>>, slot: SecSlot) -> bool {
    forall|i: int, j: int|
        #[trigger] staged::is_staged(staged, i, j) && staged[i].name == slot.table@ ==> {
            &&& apply::indexed(staged[i].schema, staged[i].schema.indexes.len() as int, slot.column@)
            &&& apply::key_of_record(p[i][j].prior, slot.column@) == current_key(
                st,
                slot.table@,
                slot.column@,
                staged[i].changes[j].id,
            )
            &&& match staged[i].changes[j].payload {
                Some(payload) => {
                    &&& record::decoded(payload, st.blobs@) matches Ok(rec) && staged::key_in(rec, slot.column@)
                        == apply::key_of_record(staged[i].changes[j].operation, slot.column@)
                },
                None => staged[i].changes[j].operation is None,
            }
        }
}

/// Whether a pair is in an index with these changes.
pub open spec fn pair_in(slot: SecSlot, overlay: Map<Seq<u8>, PairChange>, pair: Seq<u8>) -> bool {
    if overlay.contains_key(pair) {
        overlay[pair] == PairChange::Added
    } else {
        secondary::is_add(secondary::newest_op(secondary::run_values(slot.index.runs@, pair)))
    }
}

/// The changes of other records leave a record's pairs alone.
proof fn lemma_overlay_other(slot: SecSlot, overlay: Map<Seq<u8>, PairChange>, list: Seq<Step>, key: Seq<u8>, id: Seq<char>)
    requires
        key.len() <= u32::MAX,
        forall|k: int| 0 <= k < list.len() && (#[trigger] list[k]).table == slot.table@ ==> list[k].id != id,
    ensures
        pair_in(slot, publish::overlay_steps(slot, overlay, list), secondary::pair_of(key, encode_utf8(id))) == pair_in(
            slot,
            overlay,
            secondary::pair_of(key, encode_utf8(id)),
        ),
    decreases list.len(),
{
    if list.len() > 0 {
        let t = list.drop_last();
        assert forall|k: int| 0 <= k < t.len() && (#[trigger] t[k]).table == slot.table@ implies t[k].id != id by {
            assert(list[k].id != id || list[k].table != slot.table@);
        }
        lemma_overlay_other(slot, overlay, t, key, id);
        let s = list.last();
        let mid = publish::overlay_steps(slot, overlay, t);
        let pair = secondary::pair_of(key, encode_utf8(id));
        if apply::concerns(slot, s, s.schema.indexes.len() as int) {
            assert(list[list.len() - 1].id != id);
            lemma_key_lens(s.prior, slot.column@);
            lemma_key_lens(s.put, slot.column@);
            if apply::key_of_record(s.prior, slot.column@) is Some {
                lemma_other_pair(apply::key_of_record(s.prior, slot.column@)->0, s.id, key, id);
            }
            if apply::key_of_record(s.put, slot.column@) is Some {
                lemma_other_pair(apply::key_of_record(s.put, slot.column@)->0, s.id, key, id);
            }
        }
    }
}

proof fn lemma_key_lens(rec: Option<RecordView>, column: Seq<char>)
    ensures
        apply::key_of_record(rec, column) matches Some(k) ==> k.len() <= u32::MAX,
{
}

proof fn lemma_other_pair(k1: Seq<u8>, id1: Seq<char>, k2: Seq<u8>, id2: Seq<char>)
    requires
        k1.len() <= u32::MAX,
        k2.len() <= u32::MAX,
        id1 != id2,
    ensures
        secondary::pair_of(k1, encode_utf8(id1)) != secondary::pair_of(k2, encode_utf8(id2)),
{
    if secondary::pair_of(k1, encode_utf8(id1)) == secondary::pair_of(k2, encode_utf8(id2)) {
        secondary::lemma_pair_injective(k1, encode_utf8(id1), k2, encode_utf8(id2));
        bytes::lemma_utf8_injective(id1, id2);
    }
}

/// After the one change of a record, the index has it under its new key alone.
proof fn lemma_overlay_own(slot: SecSlot, list: Seq<Step>, k: int, key: Seq<u8>)
    requires
        0 <= k < list.len(),
        key.len() <= u32::MAX,
        list[k].table == slot.table@,
        apply::concerns(slot, list[k], list[k].schema.indexes.len() as int),
        forall|i: int| 0 <= i < list.len() && i != k && (#[trigger] list[i]).table == slot.table@ ==> list[i].id != list[k].id,
        slot.index.has_pair(secondary::pair_of(key, encode_utf8(list[k].id))) <==> apply::key_of_record(list[k].prior, slot.column@)
            == Some(key),
    ensures
        pair_in(
            slot,
            publish::overlay_steps(slot, slot.index.overlay@, list),
            secondary::pair_of(key, encode_utf8(list[k].id)),
        ) <==> apply::key_of_record(list[k].put, slot.column@) == Some(key),
    decreases list.len(),
{
    let s = list[k];
    let id = s.id;
    let pair = secondary::pair_of(key, encode_utf8(id));
    let t = list.drop_last();
    let overlay = slot.index.overlay@;
    if k == list.len() - 1 {
        assert forall|i: int| 0 <= i < t.len() && (#[trigger] t[i]).table == slot.table@ implies t[i].id != id by {
            assert(list[i].id != list[k].id || list[i].table != slot.table@);
        }
        lemma_overlay_other(slot, overlay, t, key, id);
        lemma_key_lens(s.prior, slot.column@);
        lemma_key_lens(s.put, slot.column@);
        let mid = publish::overlay_steps(slot, overlay, t);
        assert(pair_in(slot, mid, pair) <==> apply::key_of_record(s.prior, slot.column@) == Some(key));
        if slot.index.runs@.len() == 0 {
            assert(secondary::run_values(slot.index.runs@, pair).len() == 0);
        }
        match apply::key_of_record(s.prior, slot.column@) {
            Some(old_key) => {
                if old_key != key {
                    lemma_same_id_pair(old_key, key, id);
                }
            },
            None => {},
        }
        match apply::key_of_record(s.put, slot.column@) {
            Some(new_key) => {
                if new_key != key {
                    lemma_same_id_pair(new_key, key, id);
                }
            },
            None => {},
        }
    } else {
        assert(t[k] == list[k]);
        assert forall|i: int| 0 <= i < t.len() && i != k && (#[trigger] t[i]).table == slot.table@ implies t[i].id != t[k].id by {
            assert(list[i].id != list[k].id || list[i].table != slot.table@);
        }
        lemma_overlay_own(slot, t, k, key);
        let last = list.last();
        let mid = publish::overlay_steps(slot, overlay, t);
        let tail = seq![last];
        if apply::concerns(slot, last, last.schema.indexes.len() as int) {
            assert(list[list.len() - 1].id != list[k].id);
            lemma_key_lens(last.prior, slot.column@);
            lemma_key_lens(last.put, slot.column@);
            if apply::key_of_record(last.prior, slot.column@) is Some {
                lemma_other_pair(apply::key_of_record(last.prior, slot.column@)->0, last.id, key, id);
            }
            if apply::key_of_record(last.put, slot.column@) is Some {
                lemma_other_pair(apply::key_of_record(last.put, slot.column@)->0, last.id, key, id);
            }
        }
    }
}

proof fn lemma_same_id_pair(k1: Seq<u8>, k2: Seq<u8>, id: Seq<char>)
    requires
        k1.len() <= u32::MAX,
        k2.len() <= u32::MAX,
        k1 != k2,
    ensures
        secondary::pair_of(k1, encode_utf8(id)) != secondary::pair_of(k2, encode_utf8(id)),
{
    if secondary::pair_of(k1, encode_utf8(id)) == secondary::pair_of(k2, encode_utf8(id)) {
        secondary::lemma_pair_injective(k1, encode_utf8(id), k2, encode_utf8(id));
    }
}

/// Publishing a commit keeps an equality index in step with the records: a
/// lookup finds exactly those whose newest version has the value.
pub proof fn lemma_index_in_step(
    before: &State,
    after: &State,
    staged: Seq<StagedView>,
    p: Seq<Seq<PreviousView>>,
    version: u64,
    at: int,
)
    requires
        before.inv(),
        publish::published(before, after, staged, p, version),
        before.committed_version < version,
        staged::changes_distinct(staged),
        staged::schemas_current(before, staged),
        forall|i: int| 0 <= i < staged.len() ==> (#[trigger] staged[i]).schema.epoch < version,
        forall|i: int, j: int| #[trigger] staged::is_staged(staged, i, j) ==> before.versions(
            staged[i].name,
            encode_utf8(staged[i].changes[j].id),
        ) is Ok,
        0 <= at < before.secondary@.len(),
        before.table_view(before.secondary@[at].table@) is Some,
        index_agrees(before, before.secondary@[at]),
        changes_true(before, staged, p, before.secondary@[at]),
    ensures
        index_agrees(after, after.secondary@[at]),
{
    let slot = before.secondary@[at];
    let now = after.secondary@[at];
    let list = publish::steps(staged, p);
    assert(apply::same_slot(slot, now));
    assert(now.index.overlay@ == publish::overlay_steps(slot, slot.index.overlay@, list));
    assert forall|i: int| 0 <= i < staged.len() implies encode_utf8((#[trigger] staged[i]).name).len() <= u32::MAX by {
        before.lemma_table(staged[i].name);
    }
    before.lemma_table(slot.table@);
    lemma_keys_distinct(staged, p);
    lemma_all_steps(staged, p, staged.len() as int);
    assert forall|id: Seq<char>, key: Seq<u8>| key.len() <= u32::MAX implies (#[trigger] now.index.member(key, encode_utf8(id)) <==> current_key(
        after,
        now.table@,
        now.column@,
        id,
    ) == Some(key)) by {
        let pair = secondary::pair_of(key, encode_utf8(id));
        assert(now.index.has_pair(pair) == pair_in(slot, now.index.overlay@, pair));
        assert(slot.index.member(key, encode_utf8(id)) == pair_in(slot, slot.index.overlay@, pair));
        if staged::has_change(staged, slot.table@, id) {
            let (i, j) = choose|i: int, j: int| #[trigger] staged::stages(staged, i, j, slot.table@, id);
            assert(staged::is_staged(staged, i, j));
            let k = first_step(staged, i) + j;
            assert(list[k] == publish::step_of(staged[i], p[i], j));
            assert forall|q: int| 0 <= q < list.len() && q != k && (#[trigger] list[q]).table == slot.table@ implies list[q].id
                != list[k].id by {
                if list[q].id == list[k].id {
                    assert(apply::step_key(list[q]) == apply::step_key(list[k]));
                }
            }
            lemma_overlay_own(slot, list, k, key);
            lemma_reads_commit(before, after, staged, p, version, i, j, u64::MAX);
        } else {
            assert forall|q: int| 0 <= q < list.len() && (#[trigger] list[q]).table == slot.table@ implies list[q].id != id by {
                let (i, j) = lemma_step_place(staged, p, q);
                if list[q].id == id {
                    assert(staged::stages(staged, i, j, slot.table@, id));
                }
            }
            lemma_overlay_other(slot, slot.index.overlay@, list, key, id);
            lemma_untouched(before, after, staged, p, version, slot.table@, id, u64::MAX);
        }
    }
}

} // verus!
