//! What each step of a store does to its files and its state: after it the
//! files hold what is committed.

use crate::apply;
use crate::checkpoint_laws;
use crate::commit_laws;
use crate::disk::{self, Disk};
use crate::disk_laws;
use crate::primary;
use crate::publish::{self, PreviousView};
use crate::recover;
use crate::schema::{self, TableView};
use crate::staged::{self, StagedView};
use crate::state::State;
use crate::version::{self, VersionView};
use crate::wal::{self, WalView};
use vstd::prelude::*;
use vstd::utf8::*;

verus! {

// ---- A new store ------------------------------------------------------------

/// A new store holds nothing, and its state has nothing.
pub proof fn lemma_new_kept(st: &State)
    requires
        st.catalog@ == Seq::<TableView>::empty(),
        st.committed_version == 0,
        st.index.runs@.len() == 0,
        st.index.delta@ == Map::<Seq<u8>, Seq<VersionView>>::empty(),
        st.index.frozen is None,
        st.segments@.len() == 0,
        st.metas@.len() == 0,
    ensures
        disk::keeps(Disk { version: 0, segments: Seq::empty(), log: Seq::empty() }, st),
{
    let d = Disk { version: 0, segments: Seq::empty(), log: Seq::empty() };
    reveal(Disk::sole);
    reveal(Disk::named);
    assert(st.images() =~= d.segments);
    disk_laws::lemma_no_logs(d, 0, st.catalog@);
    disk_laws::lemma_nothing_above(d, 0, st.catalog@);
    assert forall|table: Seq<char>, id: Seq<char>| #[trigger] disk::run_agrees(&st.index, d, st.catalog@, table, id) by {
        crate::model::lemma_find(schema::table_names(st.catalog@), table);
    }
}

// ---- Commits ----------------------------------------------------------------

proof fn lemma_table_changes(t: StagedView, p: Seq<PreviousView>, n: int)
    requires
        0 <= n <= t.changes.len(),
    ensures
        wal::table_changes(t, n).len() == n,
        publish::table_steps(t, p, n).len() == n,
        forall|k: int|
            0 <= k < n ==> recover::change_key(#[trigger] wal::table_changes(t, n)[k]) == apply::step_key(publish::table_steps(t, p, n)[k]),
    decreases n,
{
    if n > 0 {
        lemma_table_changes(t, p, n - 1);
        let a = wal::table_changes(t, n);
        let b = publish::table_steps(t, p, n);
        assert forall|k: int| 0 <= k < n implies recover::change_key(#[trigger] a[k]) == apply::step_key(b[k]) by {
            if k < n - 1 {
                assert(a[k] == wal::table_changes(t, n - 1)[k]);
                assert(b[k] == publish::table_steps(t, p, n - 1)[k]);
            }
        }
    }
}

proof fn lemma_all_changes(staged: Seq<StagedView>, p: Seq<Seq<PreviousView>>, n: int)
    requires
        0 <= n <= staged.len(),
    ensures
        wal::all_changes(staged, n).len() == publish::all_steps(staged, p, n).len(),
        forall|k: int|
            0 <= k < wal::all_changes(staged, n).len() ==> recover::change_key(#[trigger] wal::all_changes(staged, n)[k])
                == apply::step_key(publish::all_steps(staged, p, n)[k]),
    decreases n,
{
    if n > 0 {
        lemma_all_changes(staged, p, n - 1);
        let t = staged[n - 1];
        let m = t.changes.len() as int;
        lemma_table_changes(t, p[n - 1], m);
        let a = wal::all_changes(staged, n);
        let b = publish::all_steps(staged, p, n);
        let x = wal::all_changes(staged, n - 1);
        let y = publish::all_steps(staged, p, n - 1);
        assert(a == x + wal::table_changes(t, m));
        assert(b == y + publish::table_steps(t, p[n - 1], m));
        assert forall|k: int| 0 <= k < a.len() implies recover::change_key(#[trigger] a[k]) == apply::step_key(b[k]) by {
            if k < x.len() {
                assert(a[k] == x[k] && b[k] == y[k]);
            } else {
                assert(a[k] == wal::table_changes(t, m)[k - x.len()]);
                assert(b[k] == publish::table_steps(t, p[n - 1], m)[k - x.len()]);
            }
        }
    }
}

proof fn lemma_change_names(staged: Seq<StagedView>, n: int)
    requires
        0 <= n <= staged.len(),
        forall|i: int| 0 <= i < staged.len() ==> encode_utf8((#[trigger] staged[i]).name).len() <= u32::MAX,
    ensures
        forall|k: int| 0 <= k < wal::all_changes(staged, n).len() ==> encode_utf8((#[trigger] wal::all_changes(staged, n)[k]).table).len() <= u32::MAX,
    decreases n,
{
    if n > 0 {
        lemma_change_names(staged, n - 1);
        let t = staged[n - 1];
        let m = t.changes.len() as int;
        lemma_table_names(t, m);
        let x = wal::all_changes(staged, n - 1);
        let y = wal::table_changes(t, m);
        let a = wal::all_changes(staged, n);
        assert(a == x + y);
        assert(encode_utf8(staged[n - 1].name).len() <= u32::MAX);
        assert forall|k: int| 0 <= k < a.len() implies encode_utf8((#[trigger] a[k]).table).len() <= u32::MAX by {
            if k < x.len() {
                assert(a[k] == x[k]);
            } else {
                assert(a[k] == y[k - x.len()]);
            }
        }
    }
}

proof fn lemma_table_names(t: StagedView, n: int)
    ensures
        forall|k: int| 0 <= k < wal::table_changes(t, n).len() ==> (#[trigger] wal::table_changes(t, n)[k]).table == t.name,
    decreases n,
{
    if n > 0 {
        lemma_table_names(t, n - 1);
        let a = wal::table_changes(t, n);
        assert forall|k: int| 0 <= k < a.len() implies (#[trigger] a[k]).table == t.name by {
            if k < wal::table_changes(t, n - 1).len() {
                assert(a[k] == wal::table_changes(t, n - 1)[k]);
            }
        }
    }
}

/// A log with one more record holds what it held and the changes of the record.
proof fn lemma_log_grows(d: Disk, rec: WalView, lo: u64, hi: u64, key: Seq<u8>, v: VersionView)
    ensures
        d.logging(rec).logs(lo, hi, key, v) <==> d.logs(lo, hi, key, v) || (lo < rec.version <= hi && exists|j: int|
            0 <= j < rec.changes.len() && recover::change_key(#[trigger] rec.changes[j]) == key && v == recover::change_entry(
                rec.version,
                rec.changes[j],
            )),
{
    let d2 = d.logging(rec);
    let n = d.log.len() as int;
    if d2.logs(lo, hi, key, v) {
        let (i, j) = choose|i: int, j: int| #[trigger] d2.change(i, j) && disk::logged_as(d2.log[i], j, lo, hi, key, v);
        if i < n {
            assert(d.change(i, j) && disk::logged_as(d.log[i], j, lo, hi, key, v));
        } else {
            assert(recover::change_key(rec.changes[j]) == key);
        }
    }
    if d.logs(lo, hi, key, v) {
        let (i, j) = choose|i: int, j: int| #[trigger] d.change(i, j) && disk::logged_as(d.log[i], j, lo, hi, key, v);
        assert(d2.change(i, j) && disk::logged_as(d2.log[i], j, lo, hi, key, v));
    }
    if lo < rec.version <= hi && exists|j: int|
        0 <= j < rec.changes.len() && recover::change_key(#[trigger] rec.changes[j]) == key && v == recover::change_entry(
            rec.version,
            rec.changes[j],
        ) {
        let j = choose|j: int|
            0 <= j < rec.changes.len() && recover::change_key(#[trigger] rec.changes[j]) == key && v == recover::change_entry(
                rec.version,
                rec.changes[j],
            );
        assert(d2.change(n, j) && disk::logged_as(d2.log[n], j, lo, hi, key, v));
    }
}

/// The versions that a commit adds under a key are those of its log record.
proof fn lemma_commit_entries(before: &State, staged: Seq<StagedView>, p: Seq<Seq<PreviousView>>, version: u64, key: Seq<u8>, v: VersionView)
    ensures
        ({
            let rec = wal::record_view(before, staged, version);
            commit_laws::entries_for(publish::steps(staged, p), key, version).contains(v) <==> exists|j: int|
                0 <= j < rec.changes.len() && recover::change_key(#[trigger] rec.changes[j]) == key && v == recover::change_entry(
                    version,
                    rec.changes[j],
                )
        }),
{
    let rec = wal::record_view(before, staged, version);
    let none = Map::<Seq<u8>, Seq<VersionView>>::empty();
    let list = publish::steps(staged, p);
    let n = rec.changes.len() as int;
    recover::lemma_all_logged(none, staged, p, version, staged.len() as int);
    commit_laws::lemma_resident_after(none, list, version, key);
    disk::lemma_changes_has(none, version, rec.changes, n, key, v);
    let more = commit_laws::entries_for(list, key, version);
    assert(primary::resident(none, key) + more =~= more);
}

proof fn lemma_after_nonempty(delta: Map<Seq<u8>, Seq<VersionView>>, list: Seq<apply::Step>, version: u64)
    requires
        forall|key: Seq<u8>| #[trigger] delta.contains_key(key) ==> delta[key].len() > 0,
    ensures
        forall|key: Seq<u8>|
            #[trigger] publish::delta_after(delta, list, version).contains_key(key) ==> publish::delta_after(
                delta,
                list,
                version,
            )[key].len() > 0,
    decreases list.len(),
{
    if list.len() > 0 {
        lemma_after_nonempty(delta, list.drop_last(), version);
        let mid = publish::delta_after(delta, list.drop_last(), version);
        let now = publish::delta_after(delta, list, version);
        assert forall|key: Seq<u8>| #[trigger] now.contains_key(key) implies now[key].len() > 0 by {
            if key != apply::step_key(list.last()) {
                assert(mid.contains_key(key));
            }
        }
    }
}

proof fn lemma_delta_grows(
    before: &State,
    after: &State,
    d: Disk,
    staged: Seq<StagedView>,
    p: Seq<Seq<PreviousView>>,
    version: u64,
    lo: u64,
)
    requires
        disk::delta_logged(before.index.delta@, d, lo, u64::MAX, before.catalog@),
        forall|i: int| 0 <= i < d.log.len() ==> (#[trigger] d.log[i]).version < version,
        lo < version,
        publish::published(before, after, staged, p, version),
        commit_laws::keys_distinct(publish::steps(staged, p)),
    ensures
        disk::delta_logged(
            after.index.delta@,
            d.logging(wal::record_view(before, staged, version)),
            lo,
            u64::MAX,
            before.catalog@,
        ),
{
    let rec = wal::record_view(before, staged, version);
    let d2 = d.logging(rec);
    let list = publish::steps(staged, p);
    let old_delta = before.index.delta@;
    let new_delta = after.index.delta@;
    assert forall|key: Seq<u8>, v: VersionView| #[trigger] primary::resident(new_delta, key).contains(v) <==> primary::resident(
        old_delta,
        key,
    ).contains(v) || commit_laws::entries_for(list, key, version).contains(v) by {
        commit_laws::lemma_resident_after(old_delta, list, version, key);
        checkpoint_laws::lemma_concat_contains(primary::resident(old_delta, key), commit_laws::entries_for(list, key, version));
    }
    assert forall|key: Seq<u8>, v: VersionView| #[trigger] primary::resident(new_delta, key).contains(v) implies d2.logs(
        lo,
        u64::MAX,
        key,
        v,
    ) by {
        lemma_log_grows(d, rec, lo, u64::MAX, key, v);
        lemma_commit_entries(before, staged, p, version, key, v);
        assert(primary::resident(old_delta, key).contains(v) ==> d.logs(lo, u64::MAX, key, v));
    }
    assert forall|key: Seq<u8>| disk::rising(#[trigger] primary::resident(new_delta, key)) by {
        commit_laws::lemma_resident_after(old_delta, list, version, key);
        commit_laws::lemma_entries_for(list, key, version);
        let a = primary::resident(old_delta, key);
        let more = commit_laws::entries_for(list, key, version);
        let s = primary::resident(new_delta, key);
        assert(disk::rising(a));
        assert(more.len() <= 1) by {
            if exists|k: int| 0 <= k < list.len() && apply::step_key(#[trigger] list[k]) == key {
                let k = choose|k: int| 0 <= k < list.len() && apply::step_key(#[trigger] list[k]) == key;
                commit_laws::lemma_one_entry(list, k, version);
            }
        }
        assert forall|i: int| 0 <= i < a.len() implies (#[trigger] a[i]).version < version by {
            assert(primary::resident(old_delta, key).contains(a[i]));
            assert(d.logs(lo, u64::MAX, key, a[i]));
            let (x, y) = choose|x: int, y: int| #[trigger] d.change(x, y) && disk::logged_as(d.log[x], y, lo, u64::MAX, key, a[i]);
            assert(d.log[x].version < version);
        }
        assert forall|i: int, j: int| 0 <= i < j < s.len() implies (#[trigger] s[i]).version < (#[trigger] s[j]).version by {
            if i < a.len() {
                assert(s[i] == a[i]);
            } else {
                assert(s[i] == more[i - a.len()]);
            }
            if j < a.len() {
                assert(s[j] == a[j]);
            } else {
                assert(s[j] == more[j - a.len()]);
            }
        }
    }
    lemma_after_nonempty(old_delta, list, version);
    assert forall|table: Seq<char>, id: Seq<char>| #[trigger] disk::log_resident(
        new_delta,
        d2,
        lo,
        u64::MAX,
        before.catalog@,
        table,
        id,
    ) by {
        assert(disk::log_resident(old_delta, d, lo, u64::MAX, before.catalog@, table, id));
        if schema::table_of(before.catalog@, table) is Some {
            let key = version::key_of(encode_utf8(table), encode_utf8(id));
            let t = schema::table_of(before.catalog@, table)->0;
            assert forall|v: VersionView| #[trigger] d2.logs(lo, u64::MAX, key, v) && v.version > t.epoch implies primary::resident(
                new_delta,
                key,
            ).contains(v) by {
                lemma_log_grows(d, rec, lo, u64::MAX, key, v);
                lemma_commit_entries(before, staged, p, version, key, v);
            }
        }
    }
}

/// The same segments hold the same, whatever the log.
proof fn lemma_log_apart(d: Disk, d2: Disk)
    requires
        d2.segments == d.segments,
        d2.version == d.version,
    ensures
        d.sole() == d2.sole(),
        d.named() ==> d2.named(),
        forall|key: Seq<u8>, w: VersionView| #[trigger] d2.stores(key, w) <==> d.stores(key, w),
{
    reveal(Disk::sole);
    assert forall|k: int, a: int| #[trigger] d2.place(k, a) <==> d.place(k, a) by {}
    assert forall|k: int, a: int| #[trigger] d2.at(k, a) == d.at(k, a) by {}
    assert forall|key: Seq<u8>, w: VersionView| #[trigger] d2.stores(key, w) <==> d.stores(key, w) by {
        if d2.stores(key, w) {
            let (k, a) = choose|k: int, a: int| #[trigger] d2.place(k, a) && d2.at(k, a) == (recover::FoundView { key, entry: w });
            assert(d.place(k, a));
        }
        if d.stores(key, w) {
            let (k, a) = choose|k: int, a: int| #[trigger] d.place(k, a) && d.at(k, a) == (recover::FoundView { key, entry: w });
            assert(d2.place(k, a));
        }
    }
    assert(d.named() ==> d2.named()) by {
        reveal(Disk::named);
        assert forall|k: int, a: int| d.named() && #[trigger] d2.place(k, a) implies valid_utf8(d2.list(k)[a].table) && valid_utf8(
            d2.list(k)[a].id,
        ) by {
            assert(d.place(k, a));
        }
    }
    assert(d.sole() ==> d2.sole()) by {
        if d.sole() {
            assert forall|k: int, a: int, l: int, b: int| #[trigger] d2.place(k, a) && #[trigger] d2.place(l, b) && d2.at(k, a).key
                == d2.at(l, b).key && d2.at(k, a).entry.version == d2.at(l, b).entry.version implies k == l && a == b by {
                assert(d.place(k, a) && d.place(l, b));
            }
        }
    }
    assert(d2.sole() ==> d.sole()) by {
        if d2.sole() {
            assert forall|k: int, a: int, l: int, b: int| #[trigger] d.place(k, a) && #[trigger] d.place(l, b) && d.at(k, a).key == d.at(
                l,
                b,
            ).key && d.at(k, a).entry.version == d.at(l, b).entry.version implies k == l && a == b by {
                assert(d2.place(k, a) && d2.place(l, b));
            }
        }
    }
}

proof fn lemma_agrees_apart(index: &primary::PrimaryIdx, d: Disk, d2: Disk, tables: Seq<TableView>)
    requires
        d2.segments == d.segments,
        d2.version == d.version,
        disk::runs_agree(index, d, tables),
    ensures
        disk::runs_agree(index, d2, tables),
{
    lemma_log_apart(d, d2);
    assert forall|table: Seq<char>, id: Seq<char>| #[trigger] disk::run_agrees(index, d2, tables, table, id) by {
        assert(disk::run_agrees(index, d, tables, table, id));
        if schema::table_of(tables, table) is Some {
            let key = version::key_of(encode_utf8(table), encode_utf8(id));
            let s = primary::run_entries(index.runs@, key)->Ok_0;
            let epoch = schema::table_of(tables, table)->0.epoch;
            lemma_agrees_log(s, d, d2, key, epoch);
        }
    }
}

proof fn lemma_agrees_log(s: Seq<VersionView>, d: Disk, d2: Disk, key: Seq<u8>, epoch: u64)
    requires
        d2.segments == d.segments,
        forall|key: Seq<u8>, w: VersionView| #[trigger] d2.stores(key, w) <==> d.stores(key, w),
        disk::agrees(s, d, key, epoch),
    ensures
        disk::agrees(s, d2, key, epoch),
{
    assert forall|v: VersionView| #[trigger] s.contains(v) && v.version > epoch implies exists|w: VersionView|
        d2.stores(key, w) && #[trigger] disk::same_place(d2.segments, v, w) by {
        let w = choose|w: VersionView|
            d.stores(key, w) && #[trigger] disk::same_place(d.segments, v, w);
        assert(d2.stores(key, w) && disk::same_place(d2.segments, v, w));
    }
}

/// Publishing a commit whose record the log has: the files hold what is
/// committed. A crash before the record is whole leaves the files as they were.
pub proof fn lemma_commit_kept(
    before: &State,
    after: &State,
    d: Disk,
    staged: Seq<StagedView>,
    p: Seq<Seq<PreviousView>>,
    version: u64,
)
    requires
        before.wf(),
        disk::keeps(d, before),
        publish::published(before, after, staged, p, version),
        before.committed_version < version,
        staged::changes_distinct(staged),
        staged::schemas_current(before, staged),
    ensures
        disk::keeps(d.logging(wal::record_view(before, staged, version)), after),
{
    let rec = wal::record_view(before, staged, version);
    let d2 = d.logging(rec);
    let list = publish::steps(staged, p);
    let mid = disk::cut(before, d);
    assert forall|i: int| 0 <= i < staged.len() implies encode_utf8((#[trigger] staged[i]).name).len() <= u32::MAX by {
        before.lemma_table(staged[i].name);
    }
    commit_laws::lemma_keys_distinct(staged, p);
    lemma_all_changes(staged, p, staged.len() as int);
    assert(disk::changes_once(rec)) by {
        assert forall|i: int, j: int| 0 <= i < rec.changes.len() && 0 <= j < rec.changes.len() && recover::change_key(
            #[trigger] rec.changes[i],
        ) == recover::change_key(#[trigger] rec.changes[j]) implies i == j by {
            assert(apply::step_key(list[i]) == apply::step_key(list[j]));
        }
    }
    lemma_change_names(staged, staged.len() as int);
    assert(disk::log_named(d2.log)) by {
        assert forall|i: int, j: int| 0 <= i < d2.log.len() && 0 <= j < d2.log[i].changes.len() implies encode_utf8(
            (#[trigger] d2.log[i].changes[j]).table,
        ).len() <= u32::MAX by {
            if i < d.log.len() {
                assert(d2.log[i].changes[j] == d.log[i].changes[j]);
            } else {
                assert(d2.log[i].changes[j] == rec.changes[j]);
            }
        }
    }
    lemma_log_apart(d, d2);
    lemma_agrees_apart(&before.index, d, d2, before.catalog@);
    assert forall|i: int| 0 <= i < d2.log.len() implies disk::changes_once(#[trigger] d2.log[i]) && d2.log[i].version <= version by {
        if i < d.log.len() {
            assert(d2.log[i] == d.log[i]);
        }
    }
    assert(disk::ascending(d2.log)) by {
        assert forall|i: int, j: int| 0 <= i < j < d2.log.len() implies (#[trigger] d2.log[i]).version < (#[trigger] d2.log[j]).version by {
            assert(d2.log[i] == d.log[i]);
            if j < d.log.len() {
                assert(d2.log[j] == d.log[j]);
            }
        }
    }
    assert(d2.sound()) by {
        assert forall|k: int, a: int| #[trigger] d2.place(k, a) implies d2.at(k, a).entry.version <= d2.version by {
            assert(d.place(k, a));
        }
    }
    lemma_delta_grows(before, after, d, staged, p, version, mid);
    assert(disk::delta_logged(after.index.frozen_map(), d2, d.version, mid, after.catalog@)) by {
        lemma_frozen_apart(before.index.frozen_map(), d, rec, d.version, mid, before.catalog@);
    }
    assert(disk::runs_agree(&after.index, d2, after.catalog@)) by {
        assert forall|table: Seq<char>, id: Seq<char>| #[trigger] disk::run_agrees(&after.index, d2, after.catalog@, table, id) by {
            assert(disk::run_agrees(&before.index, d2, before.catalog@, table, id));
        }
    }
}

/// A record above a version changes nothing of what the log holds below it.
proof fn lemma_frozen_apart(delta: Map<Seq<u8>, Seq<VersionView>>, d: Disk, rec: WalView, lo: u64, hi: u64, tables: Seq<TableView>)
    requires
        hi < rec.version,
        disk::delta_logged(delta, d, lo, hi, tables),
    ensures
        disk::delta_logged(delta, d.logging(rec), lo, hi, tables),
{
    let d2 = d.logging(rec);
    assert forall|key: Seq<u8>, v: VersionView| #[trigger] primary::resident(delta, key).contains(v) implies d2.logs(lo, hi, key, v) by {
        lemma_log_grows(d, rec, lo, hi, key, v);
    }
    assert forall|table: Seq<char>, id: Seq<char>| #[trigger] disk::log_resident(delta, d2, lo, hi, tables, table, id) by {
        assert(disk::log_resident(delta, d, lo, hi, tables, table, id));
        if schema::table_of(tables, table) is Some {
            let key = version::key_of(encode_utf8(table), encode_utf8(id));
            let t = schema::table_of(tables, table)->0;
            assert forall|v: VersionView| #[trigger] d2.logs(lo, hi, key, v) && v.version > t.epoch implies primary::resident(
                delta,
                key,
            ).contains(v) by {
                lemma_log_grows(d, rec, lo, hi, key, v);
            }
        }
    }
}

} // verus!
