//! Marks of superseded segments: a put that a newer version supersedes stands in
//! a segment that is marked, so that the puts of all other segments can be read
//! without asking the primary index.

use crate::bulk::{self, BulkLoad, BulkRow};
use crate::bytes;
use crate::checkpoint::{self, Checkpoint};
use crate::checkpoint_laws;
use crate::commit;
use crate::commit_laws;
use crate::compact::{self, Rewritten, Source};
use crate::compact_laws;
use crate::ddl::{self, RewriteView};
use crate::disk::{self, Disk};
use crate::disk_laws;
use crate::disk_loads;
use crate::disk_open;
use crate::disk_upkeep;
use crate::levels;
use crate::model;
use crate::open::{self, OpenInput, Opened};
use crate::paged;
use crate::pairs;
use crate::primary::{self, RunMetaView};
use crate::publish::{self, PreviousView};
use crate::recover::{self, FoundView, OpenedPrimary};
use crate::schema::{self, TableView};
use crate::segwrite::ItemView;
use crate::staged::{self, PreparedTable, StagedView};
use crate::state::State;
use crate::version::{self, VersionView};
use crate::visit::GroupView;
use crate::wal::{self, WalView};
use vstd::prelude::*;
use vstd::utf8::*;

verus! {

/// What the segments of a state hold, apart from any log.
pub open spec fn stored(st: &State) -> Disk {
    Disk { version: 0, segments: st.images(), log: Seq::empty() }
}

/// The puts of the segments that a table counts are those of the index.
pub open spec fn puts_agree(s: Seq<VersionView>, d: Disk, key: Seq<u8>, epoch: u64) -> bool {
    &&& forall|v: VersionView| #[trigger] s.contains(v) && v.kind is SegPut && v.version > epoch ==> exists|w: VersionView|
        d.stores(key, w) && #[trigger] disk::same_place(d.segments, v, w)
    &&& forall|w: VersionView| #[trigger] d.stores(key, w) && w.kind is SegPut && w.version > epoch ==> exists|v: VersionView|
        s.contains(v) && #[trigger] disk::same_place(d.segments, v, w)
}

/// The versions in runs are older than the frozen ones, and these older than the
/// active ones.
pub open spec fn layered(runs: Seq<VersionView>, frozen: Seq<VersionView>, active: Seq<VersionView>) -> bool {
    &&& disk::rising(frozen)
    &&& disk::rising(active)
    &&& forall|v: VersionView| #[trigger] runs.contains(v) ==> !v.kind.is_resident()
    &&& forall|v: VersionView| #[trigger] frozen.contains(v) ==> v.kind.is_resident()
    &&& forall|v: VersionView| #[trigger] active.contains(v) ==> v.kind.is_resident()
    &&& forall|v: VersionView, w: VersionView|
        #[trigger] runs.contains(v) && (#[trigger] frozen.contains(w) || active.contains(w)) ==> v.version < w.version
    &&& forall|v: VersionView, w: VersionView| #[trigger] runs.contains(v) && #[trigger] active.contains(w) ==> v.version < w.version
    &&& forall|v: VersionView, w: VersionView| #[trigger] frozen.contains(v) && #[trigger] active.contains(w) ==> v.version < w.version
}

/// Every resident record has a version, and a key that names it.
pub open spec fn delta_named(delta: Map<Seq<u8>, Seq<VersionView>>) -> bool {
    forall|key: Seq<u8>| #[trigger] delta.contains_key(key) ==> delta[key].len() > 0 && version::key_parts(key) is Ok
}

impl State {
    /// A put of a record that its table counts and that a newer version
    /// supersedes.
    pub open spec fn outdated_put(&self, table: Seq<char>, id: Seq<char>, v: VersionView) -> bool {
        &&& self.table_view(table) matches Some(t) && v.version > t.epoch
        &&& self.versions(table, encode_utf8(id)) matches Ok(s) && s.contains(v)
        &&& v.kind is SegPut
        &&& self.latest(table, encode_utf8(id)) != Ok::<Option<VersionView>, Seq<char>>(Some(v))
    }

    /// Every superseded put stands in a marked segment.
    pub open spec fn marked(&self) -> bool {
        forall|table: Seq<char>, id: Seq<char>, v: VersionView| #[trigger]
            self.outdated_put(table, id, v) ==> self.superseded@.contains(disk::segment_of(v))
    }

    pub open spec fn record_listed(&self, table: Seq<char>, id: Seq<char>) -> bool {
        let key = version::key_of(encode_utf8(table), encode_utf8(id));
        self.table_view(table) matches Some(t) ==> (self.index.entries(key) matches Ok(s) && puts_agree(s, stored(self), key, t.epoch))
    }

    /// The segments are whole, and their puts that count are those of the index.
    pub open spec fn listed(&self) -> bool {
        &&& stored(self).whole()
        &&& stored(self).ids_distinct()
        &&& stored(self).named()
        &&& disk::metas_match(self.metas@, self.images())
        &&& forall|table: Seq<char>, id: Seq<char>| #[trigger] self.record_listed(table, id)
    }

    pub open spec fn key_layered(&self, key: Seq<u8>) -> bool {
        primary::run_entries(self.index.runs@, key) matches Ok(s) && layered(
            s,
            primary::resident(self.index.frozen_map(), key),
            primary::resident(self.index.delta@, key),
        )
    }

    /// What is resident is newer than what is stored.
    pub open spec fn layers_ok(&self) -> bool {
        &&& delta_named(self.index.frozen_map())
        &&& delta_named(self.index.delta@)
        &&& forall|key: Seq<u8>| #[trigger] self.key_layered(key)
    }

    /// What a look through segments and resident records rests on: every put that
    /// a newer version supersedes stands in a marked segment, the puts of the
    /// segments are those of the index, and what is resident is newer.
    pub open spec fn marks_ok(&self) -> bool {
        &&& self.marked()
        &&& self.listed()
        &&& self.layers_ok()
    }
}

// ---- What the files give ----------------------------------------------------

proof fn lemma_stores_alike(d: Disk, e: Disk, key: Seq<u8>, w: VersionView)
    requires
        d.segments == e.segments,
        d.stores(key, w),
    ensures
        e.stores(key, w),
{
    let (k, a) = choose|k: int, a: int| #[trigger] d.place(k, a) && d.at(k, a) == (FoundView { key, entry: w });
    assert(e.place(k, a));
    assert(e.at(k, a) == d.at(k, a));
}

proof fn lemma_run_kinds(runs: Seq<primary::Run>, key: Seq<u8>)
    requires
        primary::run_entries(runs, key) is Ok,
    ensures
        forall|v: VersionView| #[trigger] primary::run_entries(runs, key)->Ok_0.contains(v) ==> !v.kind.is_resident(),
{
    levels::lemma_run_entries(runs, key);
    let s = primary::run_entries(runs, key)->Ok_0;
    assert forall|v: VersionView| #[trigger] s.contains(v) implies !v.kind.is_resident() by {
        let value = choose|value: Seq<u8>| #[trigger] levels::runs_hold(runs, (key, value)) && levels::decodes_to(value, v);
    }
}

proof fn lemma_logs_within(d: Disk, lo: u64, hi: u64, key: Seq<u8>, v: VersionView)
    requires
        d.logs(lo, hi, key, v),
    ensures
        lo < v.version <= hi,
        v.kind.is_resident(),
        exists|c: wal::WalChangeView| key == #[trigger] recover::change_key(c),
{
    let (i, j) = choose|i: int, j: int| #[trigger] d.change(i, j) && disk::logged_as(d.log[i], j, lo, hi, key, v);
    assert(key == recover::change_key(d.log[i].changes[j]));
}

proof fn lemma_kept_layer(d: Disk, st: &State, key: Seq<u8>)
    requires
        disk::keeps(d, st),
    ensures
        st.key_layered(key),
{
    let c = disk::cut(st, d);
    assert(primary::run_entries(st.index.runs@, key) is Ok);
    let runs = primary::run_entries(st.index.runs@, key)->Ok_0;
    let f = primary::resident(st.index.frozen_map(), key);
    let a = primary::resident(st.index.delta@, key);
    lemma_run_kinds(st.index.runs@, key);
    assert(disk::list_sound(runs, d.version, st.next_segment_id));
    assert forall|v: VersionView| #[trigger] f.contains(v) implies v.kind.is_resident() && d.version < v.version <= c by {
        lemma_logs_within(d, d.version, c, key, v);
    }
    assert forall|v: VersionView| #[trigger] a.contains(v) implies v.kind.is_resident() && c < v.version by {
        lemma_logs_within(d, c, u64::MAX, key, v);
    }
    assert(disk::rising(f) && disk::rising(a));
}

proof fn lemma_delta_named(delta: Map<Seq<u8>, Seq<VersionView>>, d: Disk, lo: u64, hi: u64, tables: Seq<TableView>)
    requires
        disk::delta_logged(delta, d, lo, hi, tables),
        disk::log_named(d.log),
    ensures
        delta_named(delta),
{
    assert forall|key: Seq<u8>| #[trigger] delta.contains_key(key) implies delta[key].len() > 0 && version::key_parts(key) is Ok by {
        let v = delta[key][0];
        assert(primary::resident(delta, key).contains(v));
        assert(d.logs(lo, hi, key, v));
        let (i, j) = choose|i: int, j: int| #[trigger] d.change(i, j) && disk::logged_as(d.log[i], j, lo, hi, key, v);
        let c = d.log[i].changes[j];
        assert(encode_utf8(d.log[i].changes[j].table).len() <= u32::MAX);
        version::lemma_key_round_trip(c.table, c.id);
    }
}

/// Where the files hold what is committed, the puts of the segments are those of
/// the index, and what is resident is newer.
pub proof fn lemma_kept_listed(d: Disk, st: &State)
    requires
        disk::keeps(d, st),
    ensures
        st.listed(),
        st.layers_ok(),
{
    let e = stored(st);
    let c = disk::cut(st, d);
    reveal(Disk::named);
    assert forall|k: int, a: int| #[trigger] e.place(k, a) implies d.place(k, a) && e.list(k) == d.list(k) by {}
    lemma_delta_named(st.index.frozen_map(), d, d.version, c, st.catalog@);
    lemma_delta_named(st.index.delta@, d, c, u64::MAX, st.catalog@);
    assert forall|key: Seq<u8>| #[trigger] st.key_layered(key) by {
        lemma_kept_layer(d, st, key);
    }
    assert(e.whole()) by {
        assert forall|k: int| 0 <= k < e.segments.len() implies disk::segment_whole(#[trigger] e.segments[k]) by {
            assert(disk::segment_whole(d.segments[k]));
        }
    }
    assert(e.ids_distinct()) by {
        assert forall|k: int, l: int| 0 <= k < e.segments.len() && 0 <= l < e.segments.len() && (#[trigger] e.segments[k]).id == (
        #[trigger] e.segments[l]).id implies k == l by {
            assert(d.segments[k].id == d.segments[l].id);
        }
    }
    assert forall|table: Seq<char>, id: Seq<char>| #[trigger] st.record_listed(table, id) by {
        if st.table_view(table) is Some {
            let t = st.table_view(table)->0;
            let key = version::key_of(encode_utf8(table), encode_utf8(id));
            assert(disk::run_agrees(&st.index, d, st.catalog@, table, id));
            assert(st.key_layered(key));
            let runs = primary::run_entries(st.index.runs@, key)->Ok_0;
            let f = primary::resident(st.index.frozen_map(), key);
            let a = primary::resident(st.index.delta@, key);
            lemma_puts_agree(d, e, runs, f, a, key, t.epoch);
        }
    }
}

proof fn lemma_puts_agree(d: Disk, e: Disk, runs: Seq<VersionView>, f: Seq<VersionView>, a: Seq<VersionView>, key: Seq<u8>, epoch: u64)
    requires
        d.segments == e.segments,
        disk::agrees(runs, d, key, epoch),
        layered(runs, f, a),
    ensures
        puts_agree(runs + f + a, e, key, epoch),
{
    let s = runs + f + a;
    checkpoint_laws::lemma_concat_contains(runs, f);
    checkpoint_laws::lemma_concat_contains(runs + f, a);
    assert forall|v: VersionView| #[trigger] s.contains(v) && v.kind is SegPut && v.version > epoch implies exists|w: VersionView|
        e.stores(key, w) && #[trigger] disk::same_place(e.segments, v, w) by {
        assert((runs + f).contains(v) <==> runs.contains(v) || f.contains(v));
        assert(runs.contains(v));
        let w = choose|w: VersionView| d.stores(key, w) && #[trigger] disk::same_place(d.segments, v, w);
        lemma_stores_alike(d, e, key, w);
        assert(e.stores(key, w) && disk::same_place(e.segments, v, w));
    }
    assert forall|w: VersionView| #[trigger] e.stores(key, w) && w.kind is SegPut && w.version > epoch implies exists|v: VersionView|
        s.contains(v) && #[trigger] disk::same_place(e.segments, v, w) by {
        lemma_stores_alike(e, d, key, w);
        let v = choose|v: VersionView| runs.contains(v) && #[trigger] disk::same_place(d.segments, v, w);
        assert((runs + f).contains(v));
        assert(s.contains(v) && disk::same_place(e.segments, v, w));
    }
}

// ---- Steps ------------------------------------------------------------------

/// A superseded put after a step was superseded before it, or is marked.
pub open spec fn put_carried(before: &State, after: &State, table: Seq<char>, id: Seq<char>, v: VersionView) -> bool {
    after.outdated_put(table, id, v) ==> before.outdated_put(table, id, v) || after.superseded@.contains(disk::segment_of(v))
}

proof fn lemma_marked_carried(before: &State, after: &State)
    requires
        before.marked(),
        forall|x: u32| #[trigger] before.superseded@.contains(x) ==> after.superseded@.contains(x),
        forall|table: Seq<char>, id: Seq<char>, v: VersionView| #[trigger] put_carried(before, after, table, id, v),
    ensures
        after.marked(),
{
    assert forall|table: Seq<char>, id: Seq<char>, v: VersionView| #[trigger] after.outdated_put(table, id, v) implies after.superseded@.contains(
        disk::segment_of(v),
    ) by {
        assert(put_carried(before, after, table, id, v));
    }
}

/// What each change supersedes is the newest version of its record.
pub open spec fn entries_true(st: &State, staged: Seq<StagedView>, p: Seq<Seq<PreviousView>>) -> bool {
    &&& p.len() == staged.len()
    &&& forall|i: int, j: int| #[trigger] staged::is_staged(staged, i, j) ==> j < p[i].len() && st.latest(
        staged[i].name,
        encode_utf8(staged[i].changes[j].id),
    ) == Ok::<Option<VersionView>, Seq<char>>(p[i][j].entry)
}

/// A validated commit knows what its changes supersede.
pub proof fn lemma_checked_entries(st: &State, staged: Seq<PreparedTable>, checked: Seq<Vec<publish::Previous>>, snapshot: u64)
    requires
        st.wf(),
        commit::all_checked(st, staged, checked, snapshot),
    ensures
        entries_true(st, commit::final_tables(st, staged, checked, snapshot), publish::previous_views(checked)),
{
    let all = commit::final_tables(st, staged, checked, snapshot);
    let p = publish::previous_views(checked);
    assert forall|i: int, j: int| #[trigger] staged::is_staged(all, i, j) implies j < p[i].len() && st.latest(
        all[i].name,
        encode_utf8(all[i].changes[j].id),
    ) == Ok::<Option<VersionView>, Seq<char>>(p[i][j].entry) by {
        assert(st.table_view(staged[i].name@) == Some(staged[i].schema@));
        st.lemma_table(staged[i].name@);
        assert(commit::table_checked(st, staged[i], checked[i]@, snapshot));
        assert(p[i][j] == checked[i]@[j]@);
    }
}

/// Publishing a commit marks what it supersedes.
pub proof fn lemma_publish_marked(
    before: &State,
    after: &State,
    staged: Seq<StagedView>,
    p: Seq<Seq<PreviousView>>,
    version: u64,
)
    requires
        before.wf(),
        before.marked(),
        publish::published(before, after, staged, p, version),
        staged::schemas_current(before, staged),
        entries_true(before, staged, p),
    ensures
        after.marked(),
{
    let list = publish::steps(staged, p);
    assert forall|i: int| 0 <= i < staged.len() implies encode_utf8((#[trigger] staged[i]).name).len() <= u32::MAX by {
        before.lemma_table(staged[i].name);
    }
    assert forall|table: Seq<char>, id: Seq<char>, v: VersionView| #[trigger] put_carried(before, after, table, id, v) by {
        if after.outdated_put(table, id, v) {
            let key = version::key_of(encode_utf8(table), encode_utf8(id));
            before.lemma_table(table);
            commit_laws::lemma_versions_after(before, after, list, version, table, encode_utf8(id));
            let s = before.versions(table, encode_utf8(id))->Ok_0;
            let more = commit_laws::entries_for(list, key, version);
            checkpoint_laws::lemma_concat_contains(s, more);
            lemma_entries_resident(list, key, version);
            assert(s.contains(v));
            if !before.outdated_put(table, id, v) {
                assert(before.latest(table, encode_utf8(id)) == Ok::<Option<VersionView>, Seq<char>>(Some(v)));
                if !staged::has_change(staged, table, id) {
                    commit_laws::lemma_untouched(before, after, staged, p, version, table, id, u64::MAX);
                }
                let (i, j) = choose|i: int, j: int| #[trigger] staged::stages(staged, i, j, table, id);
                assert(staged::is_staged(staged, i, j));
                assert(publish::supersedes(p, i, j, disk::segment_of(v)));
            }
        }
    }
    lemma_marked_carried(before, after);
}

proof fn lemma_entries_resident(list: Seq<crate::apply::Step>, key: Seq<u8>, version: u64)
    ensures
        forall|v: VersionView| #[trigger] commit_laws::entries_for(list, key, version).contains(v) ==> v.kind.is_resident(),
    decreases list.len(),
{
    if list.len() > 0 {
        let rest = commit_laws::entries_for(list.drop_last(), key, version);
        lemma_entries_resident(list.drop_last(), key, version);
        let now = commit_laws::entries_for(list, key, version);
        let e = crate::apply::step_entry(list.last(), version);
        assert forall|v: VersionView| #[trigger] now.contains(v) implies v.kind.is_resident() by {
            if now == rest.push(e) {
                disk::lemma_push_contains(rest, e, v);
            }
        }
    }
}

/// Where a step leaves the newest version of a record as it was and adds none,
/// its puts are carried.
proof fn lemma_subset_carried(before: &State, after: &State, table: Seq<char>, id: Seq<char>, v: VersionView)
    requires
        after.table_view(table) is Some ==> before.table_view(table) is Some && before.table_view(table)->0.epoch == after.table_view(
            table,
        )->0.epoch,
        before.versions(table, encode_utf8(id)) is Ok,
        after.versions(table, encode_utf8(id)) matches Ok(t) && t.contains(v) ==> before.versions(table, encode_utf8(id))->Ok_0.contains(v),
        after.table_view(table) is Some ==> after.latest(table, encode_utf8(id)) == before.latest(table, encode_utf8(id)),
    ensures
        put_carried(before, after, table, id, v),
{
}

/// Freezing keeps the marks.
pub proof fn lemma_freeze_marked(before: &State, after: &State, d: Disk)
    requires
        before.marked(),
        disk::keeps(d, before),
        after.catalog == before.catalog,
        after.superseded == before.superseded,
        after.index.runs == before.index.runs,
        before.index.frozen is None,
        after.index.frozen matches Some(f) && f.delta == before.index.delta,
        after.index.delta@ == Map::<Seq<u8>, Seq<VersionView>>::empty(),
    ensures
        after.marked(),
{
    disk_open::lemma_kept_versions(d, before);
    assert forall|table: Seq<char>, id: Seq<char>, v: VersionView| #[trigger] put_carried(before, after, table, id, v) by {
        let key = version::key_of(encode_utf8(table), encode_utf8(id));
        checkpoint_laws::lemma_freeze_keeps_versions(before, after, key);
        assert(before.index.entries(key) is Ok);
        lemma_subset_carried(before, after, table, id, v);
    }
    lemma_marked_carried(before, after);
}

/// Thawing keeps the marks.
pub proof fn lemma_thaw_marked(before: &State, after: &State, d: Disk)
    requires
        before.marked(),
        disk::keeps(d, before),
        after.catalog == before.catalog,
        after.superseded == before.superseded,
        after.index.runs == before.index.runs,
        after.index.frozen is None,
        checkpoint::merged_back(before.index.delta@, before.index.frozen_map(), after.index.delta@),
    ensures
        after.marked(),
{
    disk_open::lemma_kept_versions(d, before);
    assert forall|table: Seq<char>, id: Seq<char>, v: VersionView| #[trigger] put_carried(before, after, table, id, v) by {
        let key = version::key_of(encode_utf8(table), encode_utf8(id));
        assert(before.index.entries(key) is Ok);
        checkpoint_laws::lemma_thaw_keeps_versions(before, after, table, encode_utf8(id), u64::MAX);
        let runs = primary::run_entries(before.index.runs@, key)->Ok_0;
        let f = primary::resident(before.index.frozen_map(), key);
        let a = primary::resident(before.index.delta@, key);
        let now = primary::resident(after.index.delta@, key);
        let e = Seq::<VersionView>::empty();
        assert(runs + e + now =~= runs + now);
        checkpoint_laws::lemma_concat_contains(runs, now);
        checkpoint_laws::lemma_concat_contains(runs, f);
        checkpoint_laws::lemma_concat_contains(runs + f, a);
        checkpoint_laws::lemma_concat_contains(a, f);
        assert(checkpoint::merged_at(before.index.delta@, before.index.frozen_map(), after.index.delta@, key));
        assert((runs + f).contains(v) <==> runs.contains(v) || f.contains(v));
        if now.contains(v) {
            if before.index.frozen_map().contains_key(key) {
                let k = now.index_of(v);
                assert((a + f).contains(now[k]));
            }
            assert(a.contains(v) || f.contains(v));
        }
        lemma_subset_carried(before, after, table, id, v);
    }
    lemma_marked_carried(before, after);
}

/// Merging runs keeps the marks.
pub proof fn lemma_merge_marked(before: &State, after: &State, d: Disk)
    requires
        before.marked(),
        disk::keeps(d, before),
        after.catalog == before.catalog,
        after.superseded == before.superseded,
        after.index.delta == before.index.delta,
        after.index.frozen == before.index.frozen,
        forall|row: (Seq<u8>, Seq<u8>)|
            #[trigger] levels::runs_hold(after.index.runs@, row) <==> levels::runs_hold(before.index.runs@, row),
    ensures
        after.marked(),
{
    disk_open::lemma_kept_versions(d, before);
    assert forall|table: Seq<char>, id: Seq<char>, v: VersionView| #[trigger] put_carried(before, after, table, id, v) by {
        let key = version::key_of(encode_utf8(table), encode_utf8(id));
        assert(before.index.entries(key) is Ok);
        disk_upkeep::lemma_merged_entries(before.index.runs@, after.index.runs@, key);
        let p = primary::run_entries(before.index.runs@, key)->Ok_0;
        let q = primary::run_entries(after.index.runs@, key)->Ok_0;
        let f = primary::resident(before.index.frozen_map(), key);
        let a = primary::resident(before.index.delta@, key);
        let x = p + f + a;
        let y = q + f + a;
        checkpoint_laws::lemma_concat_contains(p, f);
        checkpoint_laws::lemma_concat_contains(p + f, a);
        checkpoint_laws::lemma_concat_contains(q, f);
        checkpoint_laws::lemma_concat_contains(q + f, a);
        assert forall|w: VersionView| x.contains(w) <==> y.contains(w) by {
            assert((p + f).contains(w) <==> p.contains(w) || f.contains(w));
            assert((q + f).contains(w) <==> q.contains(w) || f.contains(w));
        }
        primary::lemma_newest_same(x, y, u64::MAX);
        lemma_subset_carried(before, after, table, id, v);
    }
    lemma_marked_carried(before, after);
}

/// Changes of the catalog keep the marks.
pub proof fn lemma_catalog_marked(before: &State, after: &State, d: Disk)
    requires
        before.marked(),
        disk::keeps(d, before),
        disk_upkeep::same_stored(before, after),
        after.superseded == before.superseded,
        after.index.frozen == before.index.frozen,
        disk_upkeep::delta_kept(before, after),
        forall|table: Seq<char>| #[trigger] disk_upkeep::began_before(before, after.catalog@, table),
    ensures
        after.marked(),
{
    disk_open::lemma_kept_versions(d, before);
    assert forall|table: Seq<char>, id: Seq<char>, v: VersionView| #[trigger] put_carried(before, after, table, id, v) by {
        if after.outdated_put(table, id, v) {
            let key = version::key_of(encode_utf8(table), encode_utf8(id));
            assert(disk_upkeep::began_before(before, after.catalog@, table));
            assert(disk_upkeep::record_kept(before, after, table, id));
            assert(before.index.entries(key) is Ok);
            assert(after.index.entries(key) == before.index.entries(key));
            let s = before.index.entries(key)->Ok_0;
            let k = s.index_of(v);
            assert(s[k].version <= before.committed_version);
            lemma_subset_carried(before, after, table, id, v);
        }
    }
    lemma_marked_carried(before, after);
}

// ---- Checkpoints ------------------------------------------------------------

proof fn lemma_all_items(key: Seq<u8>, vs: Seq<VersionView>, n: int)
    requires
        0 <= n <= vs.len(),
        forall|q: int| 0 <= q < vs.len() ==> (#[trigger] vs[q]).kind.is_resident(),
    ensures
        checkpoint::version_items(key, vs, n).len() == n,
    decreases n,
{
    if n > 0 {
        lemma_all_items(key, vs, n - 1);
    }
}

/// A record with two resident versions is in a checkpoint twice.
proof fn lemma_twice(s: Seq<(Seq<u8>, Seq<VersionView>)>, key: Seq<u8>, a: VersionView, b: VersionView)
    requires
        pairs::sorted(s),
        checkpoint_laws::all_resident(pairs::to_map(s)),
        primary::resident(pairs::to_map(s), key).contains(a),
        primary::resident(pairs::to_map(s), key).contains(b),
        a != b,
    ensures
        checkpoint::any_twice(s, s.len() as int),
{
    assert(pairs::has_key(s, key));
    let p = pairs::index_of(s, key);
    pairs::lemma_to_map_at(s, p);
    let vs = s[p].1;
    assert forall|q: int| 0 <= q < vs.len() implies (#[trigger] vs[q]).kind.is_resident() by {
        assert(pairs::to_map(s)[key][q].kind.is_resident());
    }
    lemma_all_items(s[p].0, vs, vs.len() as int);
    let i = vs.index_of(a);
    let j = vs.index_of(b);
    assert(vs.len() > 1);
    assert(checkpoint::version_items(s[p].0, s[p].1, s[p].1.len() as int).len() > 1);
}

/// The resident version that an item of a checkpoint came from.
proof fn lemma_item_source(s: Seq<(Seq<u8>, Seq<VersionView>)>, locs: Seq<u64>, segment: u32, tables: Seq<TableView>, key: Seq<u8>, v: VersionView, k: int) -> (u: VersionView)
    requires
        pairs::sorted(s),
        disk_laws::run_item(checkpoint::items_of(s), locs, segment, tables, key, v, k),
    ensures
        primary::resident(pairs::to_map(s), key).contains(u),
        u.version == v.version,
{
    let items = checkpoint::items_of(s);
    checkpoint::lemma_delta_items(s, s.len() as int);
    assert(checkpoint::has_source(s, s.len() as int, items[k]));
    let (p, q) = choose|p: int, q: int| p < s.len() && #[trigger] checkpoint::came_from(s, p, q, items[k]);
    pairs::lemma_to_map_at(s, p);
    s[p].1[q]
}

/// The segment of a checkpoint is marked where it has to be.
spec fn flush_marks(s: Seq<(Seq<u8>, Seq<VersionView>)>, rest: Map<Seq<u8>, Seq<VersionView>>, superseded: bool) -> bool {
    &&& checkpoint::any_twice(s, s.len() as int) ==> superseded
    &&& checkpoint::shares_key(rest, pairs::to_map(s)) ==> superseded
}

proof fn lemma_flush_carried(
    before: &State,
    after: &State,
    d: Disk,
    s: Seq<(Seq<u8>, Seq<VersionView>)>,
    c: Checkpoint,
    order: Seq<usize>,
    locs: Seq<u64>,
    meta: RunMetaView,
    superseded: bool,
    keep_run: bool,
    table: Seq<char>,
    id: Seq<char>,
    v: VersionView,
)
    requires
        disk::keeps(d, before),
        after.versions_ok(),
        pairs::sorted(s),
        checkpoint_laws::all_resident(pairs::to_map(s)),
        forall|key: Seq<u8>, u: VersionView| #[trigger] primary::resident(pairs::to_map(s), key).contains(u) ==> u.version > d.version,
        checkpoint::holds_items(checkpoint::items_of(s), order, locs, before.catalog@, c),
        checkpoint::taken_over(before, after, c, meta, superseded, keep_run),
        !keep_run ==> c.run.rows().len() == 0,
        after.index.frozen is None,
        flush_marks(s, after.index.delta@, superseded),
        forall|key: Seq<u8>, u: VersionView| #[trigger] primary::resident(after.index.delta@, key).contains(u) ==> u.kind.is_resident(),
        before.table_view(table) is Some ==> checkpoint_laws::same_reading(before, after, table, id, u64::MAX),
    ensures
        put_carried(before, after, table, id, v),
{
    if after.outdated_put(table, id, v) {
        let key = version::key_of(encode_utf8(table), encode_utf8(id));
        let tables = before.catalog@;
        let items = checkpoint::items_of(s);
        let t = before.table_view(table)->0;
        disk_laws::lemma_new_run(items, locs, c.segment, tables, c.run.rows(), key);
        assert(primary::run_entries(before.index.runs@, key) is Ok);
        checkpoint_laws::lemma_runs_after(before, after, c, meta, superseded, keep_run, key);
        let runs = primary::run_entries(before.index.runs@, key)->Ok_0;
        assert(disk::list_sound(runs, d.version, before.next_segment_id));
        let to = primary::entries_of(paged::values_of(c.run.rows(), key))->Ok_0;
        let a = primary::resident(after.index.delta@, key);
        let e = Seq::<VersionView>::empty();
        let list = runs + to + e + a;
        assert(after.index.entries(key) == Ok::<Seq<VersionView>, Seq<char>>(list));
        assert(list =~= runs + to + a);
        checkpoint_laws::lemma_concat_contains(runs, to);
        checkpoint_laws::lemma_concat_contains(runs + to, a);
        assert((runs + to).contains(v) <==> runs.contains(v) || to.contains(v));
        primary::lemma_newest_of(list, u64::MAX);
        let i = list.index_of(v);
        assert(list[i].version <= u64::MAX);
        let x = primary::newest_of(list, u64::MAX)->0;
        let j = list.index_of(x);
        assert(x.version >= v.version);
        assert(x.version > v.version) by {
            if x.version == v.version {
                assert(list[i] == list[j]);
            }
        }
        if runs.contains(v) {
            let f = primary::resident(before.index.frozen_map(), key);
            let b = primary::resident(before.index.delta@, key);
            checkpoint_laws::lemma_concat_contains(runs, f);
            checkpoint_laws::lemma_concat_contains(runs + f, b);
            assert((runs + f).contains(v));
            assert(before.versions(table, encode_utf8(id)) == Ok::<Seq<VersionView>, Seq<char>>(runs + f + b));
        } else {
            let k = choose|k: int| #[trigger] disk_laws::run_item(items, locs, c.segment, tables, key, v, k);
            let u = lemma_item_source(s, locs, c.segment, tables, key, v, k);
            assert((runs + to).contains(x) <==> runs.contains(x) || to.contains(x));
            if to.contains(x) {
                let k2 = choose|k: int| #[trigger] disk_laws::run_item(items, locs, c.segment, tables, key, x, k);
                let y = lemma_item_source(s, locs, c.segment, tables, key, x, k2);
                lemma_twice(s, key, u, y);
            } else {
                assert(a.contains(x));
                assert(after.index.delta@.contains_key(key) && pairs::to_map(s).contains_key(key));
            }
            assert(disk::segment_of(v) == c.segment);
            assert(after.superseded@.contains(c.segment));
        }
    }
}

pub proof fn lemma_avoids(d: Disk, st: &State)
    requires
        disk::keeps(d, st),
    ensures
        checkpoint_laws::avoids(st, st.next_segment_id),
        checkpoint_laws::all_resident(st.index.delta@),
        checkpoint_laws::all_resident(st.index.frozen_map()),
{
    let c = disk::cut(st, d);
    assert forall|key: Seq<u8>, i: int| st.index.delta@.contains_key(key) && 0 <= i < st.index.delta@[key].len() implies (
    #[trigger] st.index.delta@[key][i]).kind.is_resident() by {
        assert(primary::resident(st.index.delta@, key).contains(st.index.delta@[key][i]));
        lemma_logs_within(d, c, u64::MAX, key, st.index.delta@[key][i]);
    }
    assert forall|key: Seq<u8>, i: int| st.index.frozen_map().contains_key(key) && 0 <= i < st.index.frozen_map()[key].len() implies (
    #[trigger] st.index.frozen_map()[key][i]).kind.is_resident() by {
        assert(primary::resident(st.index.frozen_map(), key).contains(st.index.frozen_map()[key][i]));
        lemma_logs_within(d, d.version, c, key, st.index.frozen_map()[key][i]);
    }
    assert forall|key: Seq<u8>, v: VersionView| #[trigger] checkpoint_laws::has_version_at(st, key, v) implies !checkpoint_laws::lives_in(
        v,
        st.next_segment_id,
    ) by {
        lemma_kept_layer(d, st, key);
        let runs = primary::run_entries(st.index.runs@, key)->Ok_0;
        let f = primary::resident(st.index.frozen_map(), key);
        let a = primary::resident(st.index.delta@, key);
        checkpoint_laws::lemma_concat_contains(runs, f);
        checkpoint_laws::lemma_concat_contains(runs + f, a);
        assert((runs + f).contains(v) <==> runs.contains(v) || f.contains(v));
        if runs.contains(v) {
            assert(disk::lives_below(v, st.next_segment_id));
        }
    }
}

/// Taking a checkpoint over keeps the marks.
pub proof fn lemma_checkpoint_marked(before: &State, after: &State, d: Disk, c: Checkpoint, meta: RunMetaView)
    requires
        before.wf(),
        before.marked(),
        disk::keeps(d, before),
        before.index.frozen is None,
        checkpoint::is_checkpoint(before.index.delta.pairs(), before.catalog@, before.committed_version, before.metas@, c),
        c.segment == before.next_segment_id,
        checkpoint::taken_over(before, after, c, meta, c.superseded, c.run.rows().len() > 0),
        after.index.delta@ == Map::<Seq<u8>, Seq<VersionView>>::empty(),
        after.index.frozen is None,
    ensures
        after.marked(),
{
    let s = before.index.delta.pairs();
    let log = Seq::<WalView>::empty();
    before.index.delta.lemma_wf();
    disk_laws::lemma_checkpoint_kept(before, after, d, log, c, meta);
    let d2 = Disk {
        version: before.committed_version,
        segments: d.segments.push(crate::segment::SegmentView { id: c.segment, image: c.image@ }),
        log,
    };
    disk_open::lemma_kept_versions(d2, after);
    disk_open::lemma_kept_versions(d, before);
    lemma_avoids(d, before);
    let (order, locs) = choose|order: Seq<usize>, locs: Seq<u64>|
        #[trigger] checkpoint::holds_items(checkpoint::items_of(s), order, locs, before.catalog@, c);
    assert forall|key: Seq<u8>, u: VersionView| #[trigger] primary::resident(pairs::to_map(s), key).contains(u) implies u.version
        > d.version by {
        lemma_logs_within(d, d.version, u64::MAX, key, u);
    }
    assert forall|table: Seq<char>, id: Seq<char>, v: VersionView| #[trigger] put_carried(before, after, table, id, v) by {
        if before.table_view(table) is Some {
            checkpoint_laws::lemma_checkpoint_keeps_rows(before, after, c, meta, table, id, u64::MAX);
        }
        lemma_flush_carried(before, after, d, s, c, order, locs, meta, c.superseded, c.run.rows().len() > 0, table, id, v);
    }
    lemma_marked_carried(before, after);
}

/// Taking over a checkpoint of frozen versions keeps the marks.
pub proof fn lemma_frozen_marked(before: &State, after: &State, d: Disk, c: Checkpoint, meta: RunMetaView)
    requires
        before.wf(),
        before.marked(),
        disk::keeps(d, before),
        before.index.frozen matches Some(f) && checkpoint::is_checkpoint(
            f.delta.pairs(),
            before.catalog@,
            f.version,
            before.metas@,
            c,
        ),
        c.segment == before.next_segment_id,
        checkpoint::taken_over(
            before,
            after,
            c,
            meta,
            c.superseded || checkpoint::shares_key(before.index.delta@, before.index.frozen_map()),
            true,
        ),
        after.index.delta == before.index.delta,
        after.index.frozen is None,
    ensures
        after.marked(),
{
    let f = before.index.frozen->0;
    let s = f.delta.pairs();
    let superseded = c.superseded || checkpoint::shares_key(before.index.delta@, before.index.frozen_map());
    f.delta.lemma_wf();
    disk_laws::lemma_frozen_kept(before, after, d, d.log, c, meta, superseded);
    let d2 = Disk {
        version: f.version,
        segments: d.segments.push(crate::segment::SegmentView { id: c.segment, image: c.image@ }),
        log: d.log,
    };
    disk_open::lemma_kept_versions(d2, after);
    disk_open::lemma_kept_versions(d, before);
    lemma_avoids(d, before);
    let (order, locs) = choose|order: Seq<usize>, locs: Seq<u64>|
        #[trigger] checkpoint::holds_items(checkpoint::items_of(s), order, locs, before.catalog@, c);
    assert forall|key: Seq<u8>, u: VersionView| #[trigger] primary::resident(pairs::to_map(s), key).contains(u) implies u.version
        > d.version by {
        lemma_logs_within(d, d.version, f.version, key, u);
    }
    assert forall|key: Seq<u8>, u: VersionView| #[trigger] primary::resident(after.index.delta@, key).contains(u) implies u.kind.is_resident() by {
        lemma_logs_within(d, f.version, u64::MAX, key, u);
    }
    assert forall|table: Seq<char>, id: Seq<char>, v: VersionView| #[trigger] put_carried(before, after, table, id, v) by {
        if before.table_view(table) is Some {
            checkpoint_laws::lemma_frozen_checkpoint_keeps_rows(
                before,
                after,
                c,
                meta,
                superseded,
                f.version,
                table,
                id,
                u64::MAX,
            );
        }
        lemma_flush_carried(before, after, d, s, c, order, locs, meta, superseded, true, table, id, v);
    }
    lemma_marked_carried(before, after);
}

// ---- Loads ------------------------------------------------------------------

/// Taking a load over keeps the marks.
pub proof fn lemma_load_marked(
    before: &State,
    after: &State,
    d: Disk,
    rows: Seq<BulkRow>,
    items: Seq<ItemView>,
    locs: Seq<u64>,
    r: BulkLoad,
    meta: RunMetaView,
)
    requires
        before.inv(),
        before.marked(),
        disk::keeps(d, before),
        before.committed_version < u64::MAX,
        before.index.frozen is None,
        before.index.delta@ == Map::<Seq<u8>, Seq<VersionView>>::empty(),
        before.table_view(r.table@) is Some,
        bulk::is_load(before, r.table@, rows, items, locs, r),
        r.segment < u32::MAX,
        bulk::load_taken(before, after, r, meta),
    ensures
        after.marked(),
{
    let log = Seq::<WalView>::empty();
    disk_loads::lemma_load_kept(before, after, d, log, rows, items, locs, r, meta);
    let d2 = Disk {
        version: r.version,
        segments: d.segments.push(crate::segment::SegmentView { id: r.segment, image: r.image@ }),
        log,
    };
    disk_open::lemma_kept_versions(d2, after);
    disk_open::lemma_kept_versions(d, before);
    assert forall|table: Seq<char>, id: Seq<char>, v: VersionView| #[trigger] put_carried(before, after, table, id, v) by {
        lemma_load_carried(before, after, rows, items, locs, r, meta, table, id, v);
    }
    lemma_marked_carried(before, after);
}

proof fn lemma_load_carried(
    before: &State,
    after: &State,
    rows: Seq<BulkRow>,
    items: Seq<ItemView>,
    locs: Seq<u64>,
    r: BulkLoad,
    meta: RunMetaView,
    table: Seq<char>,
    id: Seq<char>,
    v: VersionView,
)
    requires
        before.inv(),
        after.versions_ok(),
        before.index.frozen is None,
        before.index.delta@ == Map::<Seq<u8>, Seq<VersionView>>::empty(),
        before.index.entries(version::key_of(encode_utf8(table), encode_utf8(id))) is Ok,
        before.table_view(r.table@) is Some,
        bulk::is_load(before, r.table@, rows, items, locs, r),
        bulk::load_taken(before, after, r, meta),
    ensures
        put_carried(before, after, table, id, v),
{
    if after.outdated_put(table, id, v) {
        let key = version::key_of(encode_utf8(table), encode_utf8(id));
        let tables = before.catalog@;
        let name = r.table@;
        before.lemma_table(table);
        before.lemma_table(name);
        disk_laws::lemma_new_run(items, locs, r.segment, tables, r.run.rows(), key);
        let to = primary::entries_of(paged::values_of(r.run.rows(), key))->Ok_0;
        let runs = primary::run_entries(before.index.runs@, key)->Ok_0;
        let e = Seq::<VersionView>::empty();
        let list = runs + to;
        assert(primary::run_entries(after.index.runs@, key) == Ok::<Seq<VersionView>, Seq<char>>(runs + to));
        assert(runs + to + e + e =~= list);
        assert(runs + e + e =~= runs);
        checkpoint_laws::lemma_concat_contains(runs, to);
        primary::lemma_newest_of(list, u64::MAX);
        let i = list.index_of(v);
        assert(list[i].version <= u64::MAX);
        let x = primary::newest_of(list, u64::MAX)->0;
        let j = list.index_of(x);
        assert(x.version > v.version) by {
            if x.version == v.version {
                assert(list[i] == list[j]);
            }
        }
        assert(list[j].version <= r.version);
        if to.len() == 0 {
            assert(to =~= e);
            assert(list =~= runs);
        } else {
            assert(to.contains(to[0]));
            let k = choose|k: int| #[trigger] disk_laws::run_item(items, locs, r.segment, tables, key, to[0], k);
            lemma_loaded_new(before, rows, items, locs, r, table, id, k);
            if to.contains(v) {
                let q = choose|q: int| #[trigger] disk_laws::run_item(items, locs, r.segment, tables, key, v, q);
                disk_loads::lemma_load_items(before, rows, items, locs, r);
                assert(items[q].version == r.version);
            }
            assert(runs.contains(v));
        }
    }
}

/// A loaded record had no version before.
proof fn lemma_loaded_new(
    before: &State,
    rows: Seq<BulkRow>,
    items: Seq<ItemView>,
    locs: Seq<u64>,
    r: BulkLoad,
    table: Seq<char>,
    id: Seq<char>,
    k: int,
)
    requires
        before.inv(),
        before.table_view(r.table@) is Some,
        encode_utf8(table).len() <= u32::MAX,
        bulk::is_load(before, r.table@, rows, items, locs, r),
        0 <= k < items.len(),
        items[k].key == version::key_of(encode_utf8(table), encode_utf8(id)),
    ensures
        table == r.table@,
        before.latest(table, encode_utf8(id)) == Ok::<Option<VersionView>, Seq<char>>(None),
{
    let name = r.table@;
    let t = before.table_view(name)->0;
    let high = bulk::high_of(before, name);
    before.lemma_table(name);
    bulk::lemma_ids_rise(t, name, r.version, high, rows, items, items.len() as int);
    reveal(bulk::rows_ready);
    assert(bulk::row_ready(t, name, r.version, bulk::prev_at(high, items, k), rows[k], items[k]));
    version::lemma_key_injective(encode_utf8(name), encode_utf8(items[k].id), encode_utf8(table), encode_utf8(id));
    bytes::lemma_utf8_injective(name, table);
    assert(before.above_high(table, encode_utf8(id)));
}

// ---- Rewrites ---------------------------------------------------------------

/// Where an item of a rewrite comes from.
proof fn lemma_rewrite_source(st: &State, rw: RewriteView, marks: Seq<u64>, sources: Seq<Source>, m: ItemView) -> (r: (int, int, int))
    requires
        forall|i: int| 0 <= i < sources.len() ==> compact::source_ok(st, rw, marks, #[trigger] sources[i]),
        compact::all_items(st, rw, marks, sources, sources.len() as int).contains(m),
    ensures
        0 <= r.0 < sources.len(),
        0 <= r.1 < sources[r.0].groups.len(),
        compact_laws::group_source(
            compact::rewrite_of(st, rw, marks, sources[r.0].table),
            sources[r.0].groups[r.1],
            sources[r.0].groups[r.1].versions.len() as int,
            r.2,
            m,
        ),
{
    let n = sources.len() as int;
    compact_laws::lemma_all_items(st, rw, marks, sources, n);
    let j = choose|j: int| #[trigger] compact_laws::source_at(st, rw, marks, sources, n, j, m);
    let s = sources[j];
    let w = compact::rewrite_of(st, rw, marks, s.table);
    let q = choose|q: int| #[trigger] compact_laws::table_source(w, s.groups, s.groups.len() as int, q, m);
    let g = s.groups[q];
    let i = choose|i: int| #[trigger] compact_laws::group_source(w, g, g.versions.len() as int, i, m);
    (j, q, i)
}

/// Two items of one record, a put and a newer version, make the segment of a
/// rewrite one with a superseded put.
proof fn lemma_rewrite_twice(
    st: &State,
    rw: RewriteView,
    marks: Seq<u64>,
    sources: Seq<Source>,
    m: ItemView,
    newer: ItemView,
)
    requires
        st.wf(),
        compact::names_fit(rw),
        disk_loads::outputs_apart(rw, sources),
        compact::is_sources(st, rw, sources),
        forall|i: int| 0 <= i < sources.len() ==> compact::source_ok(st, rw, marks, #[trigger] sources[i]),
        compact::all_items(st, rw, marks, sources, sources.len() as int).contains(m),
        compact::all_items(st, rw, marks, sources, sources.len() as int).contains(newer),
        m.key == newer.key,
        m.payload is Some,
        m.version < newer.version,
    ensures
        exists|i: int| 0 <= i < sources.len() && compact::source_superseded(st, rw, marks, #[trigger] sources[i]),
{
    let (j, q, i) = lemma_rewrite_source(st, rw, marks, sources, m);
    let (j2, q2, i2) = lemma_rewrite_source(st, rw, marks, sources, newer);
    disk_loads::lemma_sources_sound(st, rw, marks, sources);
    let a = ddl::output_name(rw, sources[j].table);
    let b = ddl::output_name(rw, sources[j2].table);
    let g = sources[j].groups[q];
    let g2 = sources[j2].groups[q2];
    disk_loads::lemma_source_fits(st, rw, marks, sources, j);
    disk_loads::lemma_source_fits(st, rw, marks, sources, j2);
    version::lemma_key_injective(encode_utf8(a), g.id, encode_utf8(b), g2.id);
    bytes::lemma_utf8_injective(a, b);
    assert(sources[j].groups.len() > 0 && sources[j2].groups.len() > 0);
    assert(j == j2);
    assert(compact::is_source(st, rw, sources[j]));
    bytes::lemma_lex_irreflexive(g.id);
    if q < q2 {
        assert(bytes::lex_lt(sources[j].groups[q].id, sources[j].groups[q2].id));
    }
    if q2 < q {
        assert(bytes::lex_lt(sources[j].groups[q2].id, sources[j].groups[q].id));
    }
    assert(st.index.is_record(encode_utf8(sources[j].table), None, sources[j].groups[q]));
    if i2 < i {
        assert(g.versions[i2].version < g.versions[i].version);
    }
    let w = compact::rewrite_of(st, rw, marks, sources[j].table);
    assert(compact::selected_put(g.versions, w.marks, w.epoch, i));
    assert(compact::selected(g.versions, w.marks, w.epoch, i2));
    assert(compact::keeps_superseded(sources[j].groups[q].versions, w.marks, w.epoch));
    assert(compact::source_superseded(st, rw, marks, sources[j]));
}

/// Taking a rewrite over gives the marks that its segment needs.
pub proof fn lemma_rewrite_marked(
    before: &State,
    after: &State,
    rw: RewriteView,
    marks: Seq<u64>,
    sources: Seq<Source>,
    locs: Seq<u64>,
    r: Rewritten,
    bytes: u64,
    is_ddl: bool,
)
    requires
        before.wf(),
        before.versions_ok(),
        compact::names_fit(rw),
        disk_loads::outputs_apart(rw, sources),
        compact::is_rewritten(before, rw, marks, sources, locs, r),
        r.segment < u32::MAX,
        compact::rewrite_taken(before, after, r, bytes, is_ddl),
        after.wf(),
    ensures
        after.marked(),
{
    let log = Seq::<WalView>::empty();
    disk_loads::lemma_rewrite_kept(before, after, log, rw, marks, sources, locs, r, bytes, is_ddl);
    let d2 = Disk { version: before.committed_version, segments: after.images(), log };
    disk_open::lemma_kept_versions(d2, after);
    let tables = r.catalog@;
    let items = compact::all_items(before, rw, marks, sources, sources.len() as int);
    assert forall|table: Seq<char>, id: Seq<char>, v: VersionView| #[trigger] after.outdated_put(table, id, v) implies after.superseded@.contains(
        disk::segment_of(v),
    ) by {
        let key = version::key_of(encode_utf8(table), encode_utf8(id));
        disk_laws::lemma_new_run(items, locs, r.segment, tables, r.run.rows(), key);
        let list = primary::entries_of(paged::values_of(r.run.rows(), key))->Ok_0;
        let e = Seq::<VersionView>::empty();
        assert(after.index.runs@.drop_last() =~= Seq::<primary::Run>::empty());
        assert(primary::run_entries(after.index.runs@.drop_last(), key) == Ok::<Seq<VersionView>, Seq<char>>(e));
        assert(e + list =~= list);
        assert(primary::run_entries(after.index.runs@, key) == Ok::<Seq<VersionView>, Seq<char>>(list));
        assert(list + e + e =~= list);
        primary::lemma_newest_of(list, u64::MAX);
        let i = list.index_of(v);
        assert(list[i].version <= u64::MAX);
        let x = primary::newest_of(list, u64::MAX)->0;
        let j = list.index_of(x);
        assert(x.version > v.version) by {
            if x.version == v.version {
                assert(list[i] == list[j]);
            }
        }
        let k = choose|k: int| #[trigger] disk_laws::run_item(items, locs, r.segment, tables, key, v, k);
        let k2 = choose|k: int| #[trigger] disk_laws::run_item(items, locs, r.segment, tables, key, x, k);
        assert(items.contains(items[k]) && items.contains(items[k2]));
        lemma_rewrite_twice(before, rw, marks, sources, items[k], items[k2]);
        assert(r.superseded);
        assert(after.superseded@[0] == r.segment);
    }
}

// ---- Opening ----------------------------------------------------------------

/// Opening gives the marks that the records need.
pub proof fn lemma_open_marked(input: &OpenInput, p: OpenedPrimary, lists: Seq<Seq<GroupView>>, o: Opened)
    requires
        open::is_opened(input, p, lists, o),
        o.state.versions_ok(),
    ensures
        o.state.marked(),
{
    let st = &o.state;
    let tables = st.catalog@;
    assert forall|table: Seq<char>, id: Seq<char>, v: VersionView| #[trigger] st.outdated_put(table, id, v) implies st.superseded@.contains(
        disk::segment_of(v),
    ) by {
        let key = version::key_of(encode_utf8(table), encode_utf8(id));
        let names = schema::table_names(tables);
        model::lemma_find(names, table);
        let i = model::find(names, table)->0;
        let t = tables[i];
        assert(names[i] == t.name);
        let groups = lists[i];
        assert(st.index.is_listing(encode_utf8(t.name), None, None, groups));
        let s = st.index.entries(key)->Ok_0;
        if !st.index.holds(key) {
            compact_laws::lemma_unheld(st.index.runs@, key);
            let e = Seq::<VersionView>::empty();
            assert(e + e + e =~= e);
        }
        assert(st.index.has_record(encode_utf8(table), encode_utf8(id)));
        assert(crate::visit::lists_id(groups, encode_utf8(id)));
        let q = choose|q: int| 0 <= q < groups.len() && (#[trigger] groups[q]).id == encode_utf8(id);
        assert(st.index.is_record(encode_utf8(t.name), None, groups[q]));
        let vs = groups[q].versions;
        primary::lemma_newest_of(s, u64::MAX);
        let x = primary::newest_of(s, u64::MAX)->0;
        let a = s.index_of(v);
        assert(s[a].version <= u64::MAX);
        let b = s.index_of(x);
        assert(x.version > v.version) by {
            if x.version == v.version {
                assert(s[a] == s[b]);
            }
        }
        assert(primary::has_version(vs, s[a].version) && primary::has_version(vs, s[b].version));
        let k = choose|k: int| 0 <= k < vs.len() && (#[trigger] vs[k]).version == v.version;
        let j = choose|j: int| 0 <= j < vs.len() && (#[trigger] vs[j]).version == x.version;
        assert(s.contains(vs[k]));
        let c = s.index_of(vs[k]);
        assert(s[c] == s[a]);
        if j < k {
            assert(vs[j].version < vs[k].version);
        }
        assert(recover::outdated(vs, t.epoch, k, j));
        assert(recover::has_outdated(vs, t.epoch, disk::segment_of(v)));
        let sv = recover::Survey { high_ids: st.high_ids, superseded: st.superseded, ids: o.ids };
        assert(recover::is_survey(&st.index, input.catalog@, lists, sv));
        assert(recover::group_outdated(input.catalog@, lists, i, q, disk::segment_of(v)));
        assert(sv.superseded@.contains(disk::segment_of(v)));
    }
}

} // verus!
