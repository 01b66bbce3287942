//! An opened database keeps the invariant of the committed state, and its files
//! hold what it has committed.

use crate::bytes;
use crate::checkpoint_laws;
use crate::compact_laws;
use crate::disk::{self, Disk};
use crate::derived;
use crate::disk_laws;
use crate::error::ErrorView;
use crate::levels::SegmentMeta;
use crate::model;
use crate::open::{self, OpenInput, Opened};
use crate::paged;
use crate::primary;
use crate::recover::{self, FoundView, OpenedPrimary, ReplayView, SegFile, Survey};
use crate::schema::{self, TableView};
use crate::segment::SegmentView;
use crate::state::State;
use crate::version::{self, VersionView};
use crate::visit::{self, GroupView};
use crate::wal::{WalChangeView, WalView};
use vstd::prelude::*;
use vstd::utf8::*;

verus! {

// ---- Versions ---------------------------------------------------------------

/// What a list has under a key comes from the segments or the log.
spec fn from_disk(d: Disk, found: Seq<VersionView>, list: Seq<VersionView>, key: Seq<u8>) -> bool {
    forall|v: VersionView| #[trigger] list.contains(v) ==> found.contains(v) || d.logs(d.version, u64::MAX, key, v)
}

/// The log has one change of a record at a version.
pub proof fn lemma_logged_once(d: Disk, key: Seq<u8>, v: VersionView, w: VersionView)
    requires
        d.sound(),
        d.logs(d.version, u64::MAX, key, v),
        d.logs(d.version, u64::MAX, key, w),
        v.version == w.version,
    ensures
        v == w,
{
    let (i, j) = choose|i: int, j: int| #[trigger] d.change(i, j) && disk::logged_as(d.log[i], j, d.version, u64::MAX, key, v);
    let (k, l) = choose|k: int, l: int| #[trigger] d.change(k, l) && disk::logged_as(d.log[k], l, d.version, u64::MAX, key, w);
    if i < k {
        assert(d.log[i].version < d.log[k].version);
    }
    if k < i {
        assert(d.log[k].version < d.log[i].version);
    }
    assert(disk::changes_once(d.log[i]));
    assert(recover::change_key(d.log[i].changes[j]) == recover::change_key(d.log[i].changes[l]));
}

proof fn lemma_list_sound(d: Disk, found: Seq<VersionView>, list: Seq<VersionView>, key: Seq<u8>, committed: u64)
    requires
        d.sound(),
        d.version <= committed,
        forall|i: int| 0 <= i < d.log.len() ==> (#[trigger] d.log[i]).version <= committed,
        primary::consistent(found),
        forall|i: int| 0 <= i < found.len() ==> (#[trigger] found[i]).version <= d.version,
        from_disk(d, found, list, key),
    ensures
        primary::consistent(list),
        forall|i: int| 0 <= i < list.len() ==> (#[trigger] list[i]).version <= committed,
{
    assert forall|v: VersionView| #[trigger] d.logs(d.version, u64::MAX, key, v) implies d.version < v.version <= committed by {
        let (i, j) = choose|i: int, j: int| #[trigger] d.change(i, j) && disk::logged_as(d.log[i], j, d.version, u64::MAX, key, v);
        assert(d.log[i].version <= committed);
    }
    assert forall|v: VersionView| #[trigger] found.contains(v) implies v.version <= d.version by {
        let i = found.index_of(v);
        assert(found[i].version <= d.version);
    }
    assert forall|i: int, j: int| 0 <= i < list.len() && 0 <= j < list.len() && (#[trigger] list[i]).version == (#[trigger] list[j]).version implies list[i]
        == list[j] by {
        let v = list[i];
        let w = list[j];
        assert(list.contains(v) && list.contains(w));
        if d.logs(d.version, u64::MAX, key, v) && d.logs(d.version, u64::MAX, key, w) {
            lemma_logged_once(d, key, v, w);
        } else {
            assert(found.contains(v) && found.contains(w));
            let a = found.index_of(v);
            let b = found.index_of(w);
            assert(found[a] == found[b]);
        }
    }
    assert forall|i: int| 0 <= i < list.len() implies (#[trigger] list[i]).version <= committed by {
        assert(list.contains(list[i]));
    }
}

proof fn lemma_found_sound(d: Disk, input: &OpenInput, st: &State, p: OpenedPrimary, key: Seq<u8>)
    requires
        disk::keeps(d, st),
        disk::given(input, d, st),
        input.finds(Ok(p)),
    ensures
        p.index.frozen is None,
        primary::run_entries(p.index.runs@, key) matches Ok(s) ==> {
            let found = s + primary::resident(p.index.delta@, key);
            primary::consistent(found) && forall|i: int| 0 <= i < found.len() ==> (#[trigger] found[i]).version <= d.version
        },
{
    let metas = input.manifest.segments@;
    let files = input.files@;
    let n = files.len() as int;
    let tables = input.catalog@;
    let e = Seq::<VersionView>::empty();
    disk::lemma_all_whole(d, metas, files);
    if input.stored is Some {
        if primary::run_entries(p.index.runs@, key) is Ok {
            let s = primary::run_entries(p.index.runs@, key)->Ok_0;
            assert(s + e =~= s);
            assert(disk::list_sound(s, d.version, (open::greatest_id(st.metas@) + 1) as u32));
            assert forall|i: int| 0 <= i < s.len() implies (#[trigger] s[i]).version <= d.version by {
                assert(s.contains(s[i]));
            }
        }
    } else {
        let all = recover::found_all(metas, files, tables, false, n);
        recover::lemma_found_stored(metas, files, tables, false, n);
        let list = if !input.read_only {
            disk::lemma_rebuilt_has(all, input.source().generation, &p.index, key);
            let s = primary::run_entries(p.index.runs@, key)->Ok_0;
            assert(s + e =~= s);
            s
        } else {
            let s = primary::resident(p.index.delta@, key);
            assert(e + s =~= s);
            assert forall|v: VersionView| #[trigger] s.contains(v) <==> all.contains(FoundView { key, entry: v }) by {
                disk::lemma_pushed_has(all, key, v);
            }
            s
        };
        assert forall|v: VersionView| #[trigger] list.contains(v) implies exists|k: int, a: int|
            #[trigger] d.place(k, a) && d.at(k, a) == (FoundView { key, entry: v }) by {
            let f = FoundView { key, entry: v };
            disk::lemma_found_all(d, metas, files, tables, n, f);
            let (k, a) = choose|k: int, a: int| k < n && #[trigger] disk::counted(d, tables, k, a) && f == d.at(k, a);
            assert(d.place(k, a));
        }
        reveal(Disk::sole);
        assert forall|i: int, j: int| 0 <= i < list.len() && 0 <= j < list.len() && (#[trigger] list[i]).version == (
        #[trigger] list[j]).version implies list[i] == list[j] by {
            assert(list.contains(list[i]) && list.contains(list[j]));
            let (k, a) = choose|k: int, a: int| #[trigger] d.place(k, a) && d.at(k, a) == (FoundView { key, entry: list[i] });
            let (l, b) = choose|l: int, b: int| #[trigger] d.place(l, b) && d.at(l, b) == (FoundView { key, entry: list[j] });
            assert(d.at(k, a).key == d.at(l, b).key);
        }
        assert forall|i: int| 0 <= i < list.len() implies (#[trigger] list[i]).version <= d.version by {
            assert(list.contains(list[i]));
            let (k, a) = choose|k: int, a: int| #[trigger] d.place(k, a) && d.at(k, a) == (FoundView { key, entry: list[i] });
            assert(d.at(k, a).entry.version <= d.version);
        }
    }
}

/// Where the files hold what is committed, no version is past the committed one
/// and none is there twice.
pub proof fn lemma_kept_versions(d: Disk, st: &State)
    requires
        disk::keeps(d, st),
    ensures
        st.versions_ok(),
        forall|key: Seq<u8>| (#[trigger] st.index.entries(key)) is Ok,
{
    let c = disk::cut(st, d);
    assert forall|key: Seq<u8>| (#[trigger] st.index.entries(key)) matches Ok(s) && primary::consistent(s) && forall|i: int|
        0 <= i < s.len() ==> (#[trigger] s[i]).version <= st.committed_version by {
        assert(primary::run_entries(st.index.runs@, key) is Ok);
        let runs = primary::run_entries(st.index.runs@, key)->Ok_0;
        let f = primary::resident(st.index.frozen_map(), key);
        let a = primary::resident(st.index.delta@, key);
        let list = runs + f + a;
        checkpoint_laws::lemma_concat_contains(runs, f);
        checkpoint_laws::lemma_concat_contains(runs + f, a);
        assert forall|v: VersionView| #[trigger] list.contains(v) implies runs.contains(v) || d.logs(d.version, u64::MAX, key, v) by {
            disk::lemma_logs_split(d, d.version, c, u64::MAX, key, v);
            assert((runs + f).contains(v) <==> runs.contains(v) || f.contains(v));
        }
        assert forall|i: int| 0 <= i < runs.len() implies (#[trigger] runs[i]).version <= d.version by {
            assert(runs.contains(runs[i]));
        }
        lemma_list_sound(d, runs, list, key, st.committed_version);
    }
}

// ---- Greatest ids -----------------------------------------------------------

proof fn lemma_table_high(high: Map<Seq<u8>, Seq<char>>, t: TableView, groups: Seq<GroupView>, n: int, q: int)
    requires
        0 <= n <= groups.len(),
        recover::ids_text(groups),
        forall|i: int, j: int| 0 <= i < j < groups.len() ==> bytes::lex_lt((#[trigger] groups[i]).id, (#[trigger] groups[j]).id),
    ensures
        ({
            let after = recover::table_high(high, t, groups, n);
            let key = encode_utf8(t.name);
            &&& 0 <= q < n && recover::has_counted(groups[q].versions, t.epoch) ==> after.contains_key(key) && bytes::lex_le(
                groups[q].id,
                encode_utf8(after[key]),
            )
            &&& forall|k: Seq<u8>| k != key ==> (#[trigger] after.contains_key(k) <==> high.contains_key(k)) && (after.contains_key(k) ==> after[k]
                == high[k])
        }),
    decreases n,
{
    if n > 0 {
        lemma_table_high(high, t, groups, n - 1, q);
        if recover::has_counted(groups[n - 1].versions, t.epoch) {
            assert(valid_utf8(groups[n - 1].id));
            decode_utf8_encode_utf8(groups[n - 1].id);
            if 0 <= q < n - 1 {
                assert(bytes::lex_lt(groups[q].id, groups[n - 1].id));
            }
        }
        let rest = recover::table_high(high, t, groups, n - 1);
        let after = recover::table_high(high, t, groups, n);
        assert forall|k: Seq<u8>| k != encode_utf8(t.name) implies (#[trigger] after.contains_key(k) <==> high.contains_key(k)) && (
        after.contains_key(k) ==> after[k] == high[k]) by {
            assert(rest.contains_key(k) <==> high.contains_key(k));
        }
    }
}

proof fn lemma_all_high(tables: Seq<TableView>, lists: Seq<Seq<GroupView>>, n: int, i: int, q: int)
    requires
        0 <= n <= tables.len(),
        lists.len() == tables.len(),
        model::distinct(schema::table_names(tables)),
        forall|x: int| 0 <= x < lists.len() ==> recover::ids_text(#[trigger] lists[x]),
        forall|x: int, a: int, b: int|
            0 <= x < lists.len() && 0 <= a < b < lists[x].len() ==> bytes::lex_lt((#[trigger] lists[x][a]).id, (#[trigger] lists[x][b]).id),
        0 <= i < n,
        0 <= q < lists[i].len(),
        recover::has_counted(lists[i][q].versions, tables[i].epoch),
    ensures
        ({
            let after = recover::all_high(tables, lists, n);
            let key = encode_utf8(tables[i].name);
            after.contains_key(key) && bytes::lex_le(lists[i][q].id, encode_utf8(after[key]))
        }),
    decreases n,
{
    let x = n - 1;
    assert(recover::ids_text(lists[x]));
    let before = recover::all_high(tables, lists, x);
    if i < x {
        lemma_all_high(tables, lists, x, i, q);
        lemma_table_high(before, tables[x], lists[x], lists[x].len() as int, -1);
        let names = schema::table_names(tables);
        assert(names[i] != names[x]);
        bytes::lemma_utf8_injective(tables[i].name, tables[x].name);
        assert(recover::all_high(tables, lists, n).contains_key(encode_utf8(tables[i].name)) <==> before.contains_key(encode_utf8(tables[i].name)));
    } else {
        lemma_table_high(before, tables[x], lists[x], lists[x].len() as int, q);
    }
}

/// No id above the greatest has a version.
proof fn lemma_high_found(st: &State, lists: Seq<Seq<GroupView>>, s: Survey, table: Seq<char>, id: Seq<u8>)
    requires
        recover::is_survey(&st.index, st.catalog@, lists, s),
        s.high_ids == st.high_ids,
        st.tables_ok(),
        st.above_high(table, id),
    ensures
        st.latest(table, id) == Ok::<Option<VersionView>, Seq<char>>(None),
{
    if st.table_view(table) is Some {
        let tables = st.catalog@;
        let names = schema::table_names(tables);
        model::lemma_find(names, table);
        let i = model::find(names, table)->0;
        let t = tables[i];
        assert(names[i] == t.name);
        let key = version::key_of(encode_utf8(table), id);
        let groups = lists[i];
        assert(st.index.is_listing(encode_utf8(t.name), None, None, groups));
        if st.index.holds(key) {
            assert(st.index.has_record(encode_utf8(table), id));
            assert(visit::id_wanted(None, id));
            assert(visit::lists_id(groups, id));
            let q = choose|q: int| 0 <= q < groups.len() && (#[trigger] groups[q]).id == id;
            assert(st.index.is_record(encode_utf8(t.name), None, groups[q]));
            let vs = st.index.entries(key)->Ok_0;
            if recover::has_counted(groups[q].versions, t.epoch) {
                assert forall|x: int| 0 <= x < lists.len() implies recover::ids_text(#[trigger] lists[x]) by {}
                assert forall|x: int, a: int, b: int| 0 <= x < lists.len() && 0 <= a < b < lists[x].len() implies bytes::lex_lt(
                    (#[trigger] lists[x][a]).id,
                    (#[trigger] lists[x][b]).id,
                ) by {
                    assert(st.index.is_listing(encode_utf8(tables[x].name), None, None, lists[x]));
                }
                lemma_all_high(tables, lists, tables.len() as int, i, q);
                let high = encode_utf8(st.high_ids@[encode_utf8(table)]);
                bytes::lemma_lex_irreflexive(id);
                if high != id {
                    bytes::lemma_lex_transitive(id, high, id);
                }
            }
            primary::lemma_newest_of(vs, u64::MAX);
            if primary::newest_of(vs, u64::MAX) is Some {
                let v = primary::newest_of(vs, u64::MAX)->0;
                let a = vs.index_of(v);
                assert(primary::has_version(groups[q].versions, vs[a].version));
                let b = choose|b: int| 0 <= b < groups[q].versions.len() && (#[trigger] groups[q].versions[b]).version == v.version;
                assert(groups[q].versions[b].version <= t.epoch);
            }
        } else {
            compact_laws::lemma_unheld(st.index.runs@, key);
            let e = Seq::<VersionView>::empty();
            assert(e + e + e =~= e);
            assert(st.index.entries(key) == Ok::<Seq<VersionView>, Seq<char>>(e));
        }
    }
}

/// Opening what a store holds gives a state that keeps the invariant.
pub proof fn lemma_open_invariant(st: &State, d: Disk, input: &OpenInput, p: OpenedPrimary, lists: Seq<Seq<GroupView>>, o: Opened)
    requires
        st.wf(),
        st.tables_ok(),
        disk::keeps(d, st),
        disk::given(input, d, st),
        open::is_opened(input, p, lists, o),
    ensures
        o.state.inv(),
{
    let n = d.log.len() as int;
    let start = ReplayView { delta: p.index.delta@, committed: d.version, bytes: 0 };
    let after = &o.state;
    disk::lemma_replayed_has(start, d.log, n, arbitrary(), arbitrary());
    assert(input.log@.len() == d.log.len());
    if n > 0 {
        assert(d.log[n - 1].version <= st.committed_version);
    }
    assert(after.committed_version == st.committed_version);
    assert forall|key: Seq<u8>| (#[trigger] after.index.entries(key)) matches Ok(s) ==> primary::consistent(s) && forall|i: int|
        0 <= i < s.len() ==> (#[trigger] s[i]).version <= after.committed_version by {
        if after.index.entries(key) is Ok {
            lemma_found_sound(d, input, st, p, key);
            let runs = primary::run_entries(p.index.runs@, key)->Ok_0;
            let before = primary::resident(p.index.delta@, key);
            let now = primary::resident(after.index.delta@, key);
            let e = Seq::<VersionView>::empty();
            let list = runs + e + now;
            let found = runs + before;
            assert(list =~= runs + now);
            checkpoint_laws::lemma_concat_contains(runs, now);
            checkpoint_laws::lemma_concat_contains(runs, before);
            assert forall|v: VersionView| #[trigger] list.contains(v) implies found.contains(v) || d.logs(
                d.version,
                u64::MAX,
                key,
                v,
            ) by {
                disk::lemma_replay_adds(d, start, key, v);
            }
            lemma_list_sound(d, found, list, key, after.committed_version);
        }
    }
    assert(after.versions_ok());
    assert(after.tables_ok());
    assert forall|table: Seq<char>, id: Seq<u8>| #[trigger] after.above_high(table, id) implies after.latest(table, id) == Ok::<
        Option<VersionView>,
        Seq<char>,
    >(None) by {
        let s = Survey { high_ids: after.high_ids, superseded: after.superseded, ids: o.ids };
        lemma_high_found(after, lists, s, table, id);
    }
}

// ---- The opened state and its files -----------------------------------------

proof fn lemma_greatest(metas: Seq<SegmentMeta>)
    ensures
        forall|i: int| 0 <= i < metas.len() ==> (#[trigger] metas[i]).id <= open::greatest_id(metas),
    decreases metas.len(),
{
    if metas.len() > 0 {
        let t = metas.drop_last();
        lemma_greatest(t);
        assert forall|i: int| 0 <= i < metas.len() implies (#[trigger] metas[i]).id <= open::greatest_id(metas) by {
            if i < t.len() {
                assert(t[i].id <= open::greatest_id(t));
            }
        }
    }
}

/// A record with one change under a key adds one version.
proof fn lemma_changes_once(delta: Map<Seq<u8>, Seq<VersionView>>, rec: WalView, n: int, key: Seq<u8>)
    requires
        disk::changes_once(rec),
        0 <= n <= rec.changes.len(),
    ensures
        ({
            let now = primary::resident(recover::changes_replayed(delta, rec.version, rec.changes, n), key);
            let before = primary::resident(delta, key);
            if exists|j: int| 0 <= j < n && recover::change_key(#[trigger] rec.changes[j]) == key {
                now.len() == before.len() + 1 && now.drop_last() == before && now.last().version == rec.version
            } else {
                now == before
            }
        }),
    decreases n,
{
    if n > 0 {
        lemma_changes_once(delta, rec, n - 1, key);
        let mid = primary::resident(recover::changes_replayed(delta, rec.version, rec.changes, n - 1), key);
        let before = primary::resident(delta, key);
        let now = primary::resident(recover::changes_replayed(delta, rec.version, rec.changes, n), key);
        if recover::change_key(rec.changes[n - 1]) == key {
            if exists|j: int| 0 <= j < n - 1 && recover::change_key(#[trigger] rec.changes[j]) == key {
                let j = choose|j: int| 0 <= j < n - 1 && recover::change_key(#[trigger] rec.changes[j]) == key;
                assert(recover::change_key(rec.changes[j]) == recover::change_key(rec.changes[n - 1]));
            }
            assert(now.drop_last() =~= before);
            assert(recover::change_key(rec.changes[n - 1]) == key);
        } else if exists|j: int| 0 <= j < n && recover::change_key(#[trigger] rec.changes[j]) == key {
            let j = choose|j: int| 0 <= j < n && recover::change_key(#[trigger] rec.changes[j]) == key;
            assert(j < n - 1 && recover::change_key(rec.changes[j]) == key);
        }
    }
}

/// Replaying a log leaves no version of a record twice.
proof fn lemma_replay_once(start: ReplayView, log: Seq<WalView>, n: int, key: Seq<u8>)
    requires
        start.delta == Map::<Seq<u8>, Seq<VersionView>>::empty(),
        forall|i: int| 0 <= i < log.len() ==> disk::changes_once(#[trigger] log[i]),
        0 <= n <= log.len(),
    ensures
        ({
            let end = recover::replayed(start, log, n);
            let s = primary::resident(end.delta, key);
            disk::rising(s) && forall|i: int| 0 <= i < s.len() ==> (#[trigger] s[i]).version <= end.committed
        }),
    decreases n,
{
    if n > 0 {
        lemma_replay_once(start, log, n - 1, key);
        let at = recover::replayed(start, log, n - 1);
        let rec = log[n - 1];
        if rec.version > at.committed {
            lemma_changes_once(at.delta, rec, rec.changes.len() as int, key);
            let before = primary::resident(at.delta, key);
            let s = primary::resident(recover::replayed(start, log, n).delta, key);
            assert forall|i: int| 0 <= i < s.len() implies (#[trigger] s[i]).version <= rec.version && (i < before.len() ==> s[i]
                == before[i]) by {
                if s.len() == before.len() + 1 && i < before.len() {
                    assert(s[i] == s.drop_last()[i]);
                }
            }
            assert(disk::rising(s)) by {
                assert forall|i: int, j: int| 0 <= i < j < s.len() implies (#[trigger] s[i]).version < (
                #[trigger] s[j]).version by {
                    if i < before.len() {
                        assert(before[i].version <= at.committed);
                    }
                    if j < before.len() {
                        assert(before[j].version <= at.committed);
                    }
                }
            }
        }
    }
}

proof fn lemma_changes_nonempty(delta: Map<Seq<u8>, Seq<VersionView>>, version: u64, s: Seq<WalChangeView>, n: int)
    requires
        forall|key: Seq<u8>| #[trigger] delta.contains_key(key) ==> delta[key].len() > 0,
    ensures
        forall|key: Seq<u8>|
            #[trigger] recover::changes_replayed(delta, version, s, n).contains_key(key) ==> recover::changes_replayed(
                delta,
                version,
                s,
                n,
            )[key].len() > 0,
    decreases n,
{
    if n > 0 {
        lemma_changes_nonempty(delta, version, s, n - 1);
        let mid = recover::changes_replayed(delta, version, s, n - 1);
        let now = recover::changes_replayed(delta, version, s, n);
        assert forall|key: Seq<u8>| #[trigger] now.contains_key(key) implies now[key].len() > 0 by {
            if key != recover::change_key(s[n - 1]) {
                assert(mid.contains_key(key));
            }
        }
    }
}

proof fn lemma_replay_nonempty(start: ReplayView, log: Seq<WalView>, n: int)
    requires
        start.delta == Map::<Seq<u8>, Seq<VersionView>>::empty(),
    ensures
        forall|key: Seq<u8>|
            #[trigger] recover::replayed(start, log, n).delta.contains_key(key) ==> recover::replayed(start, log, n).delta[key].len()
                > 0,
    decreases n,
{
    if n > 0 {
        lemma_replay_nonempty(start, log, n - 1);
        let at = recover::replayed(start, log, n - 1);
        lemma_changes_nonempty(at.delta, log[n - 1].version, log[n - 1].changes, log[n - 1].changes.len() as int);
    }
}

/// The files hold the segments and nothing more.
pub open spec fn files_exact(files: Seq<SegFile>, segments: Seq<SegmentView>) -> bool {
    forall|k: int| 0 <= k < files.len() ==> ((#[trigger] files[k]).data matches Ok(data) && data@ == segments[k].image)
}

/// Opened for writing, a database is one whose files hold what is committed, so
/// that every law of a running store holds of it too.
pub proof fn lemma_open_kept(st: &State, d: Disk, input: &OpenInput, p: OpenedPrimary, lists: Seq<Seq<GroupView>>, o: Opened)
    requires
        st.wf(),
        disk::keeps(d, st),
        disk::given(input, d, st),
        !input.read_only,
        files_exact(input.files@, d.segments),
        open::is_opened(input, p, lists, o),
    ensures
        disk::keeps(d, &o.state),
{
    let after = &o.state;
    let n = d.log.len() as int;
    let metas = input.manifest.segments@;
    let files = input.files@;
    let start = ReplayView { delta: p.index.delta@, committed: d.version, bytes: 0 };
    disk::lemma_all_whole(d, metas, files);
    disk::lemma_replayed_has(start, d.log, n, arbitrary(), arbitrary());
    assert(input.log@.len() == d.log.len());
    if n > 0 {
        assert(d.log[n - 1].version <= st.committed_version);
    }
    disk::lemma_readable(metas, files, d.segments, files.len() as int);
    assert(d.segments.subrange(0, d.segments.len() as int) =~= d.segments);
    lemma_readable_exact(metas, files, d.segments, files.len() as int);
    assert(after.images() =~= d.segments);
    lemma_greatest(metas);
    assert(disk::metas_match(after.metas@, d.segments));
    assert forall|k: int| 0 <= k < d.segments.len() implies (#[trigger] d.segments[k]).id < after.next_segment_id by {
        assert(metas[k].id == d.segments[k].id);
    }
    assert(disk::runs_sound(&after.index, d.version, after.next_segment_id)) by {
        assert forall|key: Seq<u8>| (#[trigger] primary::run_entries(after.index.runs@, key)) matches Ok(s) && disk::list_sound(
            s,
            d.version,
            after.next_segment_id,
        ) by {
            lemma_opened_runs(st, d, input, p, key);
        }
    }
    assert(disk::runs_agree(&after.index, d, after.catalog@)) by {
        assert forall|table: Seq<char>, id: Seq<char>| #[trigger] disk::run_agrees(&after.index, d, after.catalog@, table, id) by {
            if st.table_view(table) is Some {
                disk::lemma_found_lists(d, input, st, p, table, id);
                let key = version::key_of(encode_utf8(table), encode_utf8(id));
                let s = primary::run_entries(p.index.runs@, key)->Ok_0;
                assert(s + primary::resident(p.index.delta@, key) =~= s);
            }
        }
    }
    disk_laws::lemma_no_logs(d, d.version, after.catalog@);
    assert(disk::delta_logged(after.index.delta@, d, d.version, u64::MAX, after.catalog@)) by {
        let delta = after.index.delta@;
        assert forall|key: Seq<u8>, v: VersionView| #[trigger] primary::resident(delta, key).contains(v) <==> d.logs(
            d.version,
            u64::MAX,
            key,
            v,
        ) by {
            disk::lemma_replay_adds(d, start, key, v);
        }
        assert forall|key: Seq<u8>| disk::rising(#[trigger] primary::resident(delta, key)) by {
            lemma_replay_once(start, d.log, n, key);
        }
        lemma_replay_nonempty(start, d.log, n);
        assert forall|table: Seq<char>, id: Seq<char>| #[trigger] disk::log_resident(
            delta,
            d,
            d.version,
            u64::MAX,
            after.catalog@,
            table,
            id,
        ) by {
            let key = version::key_of(encode_utf8(table), encode_utf8(id));
            assert forall|v: VersionView| #[trigger] d.logs(d.version, u64::MAX, key, v) implies primary::resident(delta, key).contains(v) by {}
        }
    }
}

proof fn lemma_readable_exact(metas: Seq<SegmentMeta>, files: Seq<SegFile>, segments: Seq<SegmentView>, n: int)
    requires
        disk::files_hold(metas, files, segments),
        files_exact(files, segments),
        0 <= n <= files.len(),
    ensures
        open::readable_segments(metas, files, n) == segments.subrange(0, n),
    decreases n,
{
    if n > 0 {
        lemma_readable_exact(metas, files, segments, n - 1);
        assert(disk::file_holds(files[n - 1], segments[n - 1]));
        assert(metas[n - 1].id == segments[n - 1].id);
        assert(segments.subrange(0, n) =~= segments.subrange(0, n - 1).push(segments[n - 1]));
    }
    assert(n == 0 ==> segments.subrange(0, n) =~= Seq::<SegmentView>::empty());
}

/// The runs that opening finds are sound.
proof fn lemma_opened_runs(st: &State, d: Disk, input: &OpenInput, p: OpenedPrimary, key: Seq<u8>)
    requires
        disk::keeps(d, st),
        disk::given(input, d, st),
        !input.read_only,
        input.finds(Ok(p)),
    ensures
        primary::run_entries(p.index.runs@, key) matches Ok(s) && disk::list_sound(
            s,
            d.version,
            (open::greatest_id(st.metas@) + 1) as u32,
        ),
        p.index.delta@ == Map::<Seq<u8>, Seq<VersionView>>::empty(),
{
    let metas = input.manifest.segments@;
    let files = input.files@;
    let n = files.len() as int;
    let tables = input.catalog@;
    let next = (open::greatest_id(st.metas@) + 1) as u32;
    disk::lemma_all_whole(d, metas, files);
    lemma_greatest(metas);
    if input.stored is None {
        let all = recover::found_all(metas, files, tables, false, n);
        recover::lemma_found_stored(metas, files, tables, false, n);
        disk::lemma_rebuilt_has(all, input.source().generation, &p.index, key);
        lemma_found_sound(d, input, st, p, key);
        let s = primary::run_entries(p.index.runs@, key)->Ok_0;
        assert(s + primary::resident(p.index.delta@, key) =~= s);
        assert forall|v: VersionView| #[trigger] s.contains(v) implies v.version <= d.version && disk::lives_below(v, next) by {
            let i = s.index_of(v);
            assert(s[i].version <= d.version);
            let f = FoundView { key, entry: v };
            disk::lemma_found_all(d, metas, files, tables, n, f);
            let (k, a) = choose|k: int, a: int| k < n && #[trigger] disk::counted(d, tables, k, a) && f == d.at(k, a);
            assert(metas[k].id == d.segments[k].id);
        }
    }
}

// ---- When opening is owed ---------------------------------------------------

/// Every resident key names a table and an id.
spec fn keys_parse(delta: Map<Seq<u8>, Seq<VersionView>>) -> bool {
    forall|key: Seq<u8>| #[trigger] delta.contains_key(key) ==> version::key_parts(key) is Ok
}

proof fn lemma_changes_parse(delta: Map<Seq<u8>, Seq<VersionView>>, version: u64, s: Seq<WalChangeView>, n: int)
    requires
        keys_parse(delta),
        0 <= n <= s.len(),
        forall|j: int| 0 <= j < s.len() ==> encode_utf8((#[trigger] s[j]).table).len() <= u32::MAX,
    ensures
        keys_parse(recover::changes_replayed(delta, version, s, n)),
    decreases n,
{
    if n > 0 {
        lemma_changes_parse(delta, version, s, n - 1);
        assert(encode_utf8(s[n - 1].table).len() <= u32::MAX);
        version::lemma_key_round_trip(s[n - 1].table, s[n - 1].id);
    }
}

proof fn lemma_replay_parses(start: ReplayView, log: Seq<WalView>, n: int)
    requires
        keys_parse(start.delta),
        recover::log_fits(log),
        0 <= n <= log.len(),
    ensures
        keys_parse(recover::replayed(start, log, n).delta),
    decreases n,
{
    if n > 0 {
        lemma_replay_parses(start, log, n - 1);
        let at = recover::replayed(start, log, n - 1);
        let s = log[n - 1].changes;
        assert forall|j: int| 0 <= j < s.len() implies encode_utf8((#[trigger] s[j]).table).len() <= u32::MAX by {
            assert(log[n - 1].changes[j] == s[j]);
        }
        lemma_changes_parse(at.delta, log[n - 1].version, s, s.len() as int);
    }
}

/// Every key of an index that was made from the segments names a table and an
/// id.
proof fn lemma_run_keys_parse(st: &State, d: Disk, input: &OpenInput, p: OpenedPrimary, key: Seq<u8>)
    requires
        disk::keeps(d, st),
        disk::given(input, d, st),
        !input.read_only,
        input.stored is None,
        input.finds(Ok(p)),
        primary::run_holds(p.index.runs@, key),
    ensures
        version::key_parts(key) is Ok,
{
    let metas = input.manifest.segments@;
    let files = input.files@;
    let n = files.len() as int;
    let tables = input.catalog@;
    let all = recover::found_all(metas, files, tables, false, n);
    let made = recover::found_rows(all);
    disk::lemma_all_whole(d, metas, files);
    let i = choose|i: int| 0 <= i < p.index.runs@.len() && #[trigger] paged::holds_key(p.index.runs@[i].index.rows(), key);
    let rows = p.index.runs@[0].index.rows();
    let x = choose|x: int| 0 <= x < rows.len() && (#[trigger] rows[x]).0 == key;
    assert(paged::holds_row(rows, rows[x]));
    paged::lemma_sorted_rows(rows, made, rows[x]);
    let y = choose|y: int| 0 <= y < made.len() && #[trigger] made[y] == rows[x];
    assert(all.contains(all[y]));
    disk::lemma_found_all(d, metas, files, tables, n, all[y]);
    let (k, a) = choose|k: int, a: int| k < n && #[trigger] disk::counted(d, tables, k, a) && all[y] == d.at(k, a);
    assert(d.place(k, a));
    reveal(Disk::named);
    let e = d.list(k)[a];
    disk::lemma_entries_within(d.segments[k].image, 0, d.segments[k].id);
    assert(disk::entry_within(d.segments[k].image, e));
    decode_utf8_encode_utf8(e.table);
    decode_utf8_encode_utf8(e.id);
    version::lemma_key_round_trip(decode_utf8(e.table), decode_utf8(e.id));
}

/// An index has to be made of records that cannot be decoded.
pub open spec fn index_refused(input: &OpenInput, p: OpenedPrimary, st: &State, i: int, e: ErrorView) -> bool {
    &&& open::is_core(input, p, st)
    &&& 0 <= i < input.defs().len()
    &&& !open::runs_serve(input.index_runs@[i])
    &&& derived::values_fault(st, input.defs()[i].table, input.defs()[i].column, e)
}

/// What was committed can be opened for writing. Only two things can refuse it:
/// the memory that the log takes, and an index that is to be made anew from
/// records that cannot be decoded.
pub proof fn lemma_open_owed(st: &State, d: Disk, input: &OpenInput, e: ErrorView)
    requires
        st.wf(),
        disk::keeps(d, st),
        disk::given(input, d, st),
        !input.read_only,
        input.stored matches Some(index) ==> index.sound(),
        open::open_error(input, e),
    ensures
        (exists|n: usize| n > input.limit && e == #[trigger] open::retained_error(n, input.limit)) || exists|
            p: OpenedPrimary,
            core: State,
            i: int,
        | #[trigger] index_refused(input, p, &core, i, e),
{
    disk::lemma_all_whole(d, input.manifest.segments@, input.files@);
    let (p, core) = choose|p: OpenedPrimary, core: State| #[trigger] open::late_error(input, p, &core, e);
    if exists|i: int| #[trigger] recover::survey_fault(&core.index, input.catalog@, i, e) {
        let i = choose|i: int| #[trigger] recover::survey_fault(&core.index, input.catalog@, i, e);
        let t = encode_utf8(input.catalog@[i].name);
        let (key, m) = choose|key: Seq<u8>, m: Seq<char>| #[trigger] core.index.is_fault(t, key, m) && e == ErrorView::Corrupt(m);
        lemma_opened_runs(st, d, input, p, key);
        let start = ReplayView { delta: p.index.delta@, committed: d.version, bytes: 0 };
        lemma_replay_parses(start, d.log, d.log.len() as int);
        if primary::run_holds(core.index.runs@, key) {
            if input.stored is None {
                lemma_run_keys_parse(st, d, input, p, key);
            } else {
                assert(p.index.holds(key));
            }
        }
        assert(false);
    }
    if exists|i: int|
        0 <= i < input.defs().len() && !open::runs_serve(input.index_runs@[i]) && derived::values_fault(
            &core,
            (#[trigger] input.defs()[i]).table,
            input.defs()[i].column,
            e,
        ) {
        let i = choose|i: int|
            0 <= i < input.defs().len() && !open::runs_serve(input.index_runs@[i]) && derived::values_fault(
                &core,
                (#[trigger] input.defs()[i]).table,
                input.defs()[i].column,
                e,
            );
        assert(index_refused(input, p, &core, i, e));
    }
}

} // verus!
