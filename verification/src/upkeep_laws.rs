//! Upkeep: what a stored graph of vectors is told when it is loaded, when segments
//! are compacted by themselves, and which options are accepted.

use crate::compact;
use crate::debt::{self, AutoCompaction};
use crate::derived;
use crate::error::ErrorView;
use crate::index_laws;
use crate::levels;
use crate::memory::{MemoryGovernor, MemoryPool};
use crate::options::{AutoCompactionOptions, MemoryOptions};
use crate::primary;
use crate::publish::{self, PreviousView};
use crate::schema::TableView;
use crate::segment;
use crate::staged::StagedView;
use crate::state::{self, State};
use crate::value::ValueView;
use crate::vectors::{self, GraphChangeView};
use crate::version::{self, VersionView};
use crate::visit::{self, GroupView};
use vstd::prelude::*;
use vstd::utf8::*;

verus! {

// ---- A stored graph ---------------------------------------------------------

/// A graph once a change is made to it.
pub open spec fn graph_changed(graph: Map<Seq<u8>, Seq<u32>>, c: GraphChangeView) -> Map<Seq<u8>, Seq<u32>> {
    match c.vector {
        Some(v) => graph.insert(c.id, v),
        None => graph.remove(c.id),
    }
}

pub open spec fn graph_after(graph: Map<Seq<u8>, Seq<u32>>, changes: Seq<GraphChangeView>) -> Map<Seq<u8>, Seq<u32>>
    decreases changes.len(),
{
    if changes.len() == 0 {
        graph
    } else {
        graph_changed(graph_after(graph, changes.drop_last()), changes.last())
    }
}

/// A reader at `max` sees a vector in a column of a record.
pub open spec fn vector_seen(st: &State, t: TableView, column: Seq<char>, id: Seq<char>, max: u64, vector: Seq<u32>) -> bool {
    st.row(t.name, id, max) matches Ok(Some(rec)) && rec.contains_key(encode_utf8(column)) && rec[encode_utf8(column)]
        == ValueView::Vector(vector)
}

pub open spec fn graph_holds(graph: Map<Seq<u8>, Seq<u32>>, id: Seq<char>, vector: Seq<u32>) -> bool {
    graph.contains_key(encode_utf8(id)) && graph[encode_utf8(id)] == vector
}

/// A graph that was stored at a version and holds of a record what a reader at
/// that version sees holds, once it is told what it lacks, what the record has now,
/// and nothing of a deleted one.
pub proof fn lemma_graph_catches_up(
    st: &State,
    t: TableView,
    column: Seq<char>,
    since: u64,
    groups: Seq<GroupView>,
    changes: Seq<GraphChangeView>,
    graph: Map<Seq<u8>, Seq<u32>>,
    id: Seq<char>,
    vector: Seq<u32>,
)
    requires
        st.wf(),
        st.versions_ok(),
        st.table_view(t.name) == Some(t),
        t.epoch <= since,
        index_laws::stored_column(t, column),
        derived::lists_table(st, t.name, groups),
        vectors::changes_since(st, groups, column, since, groups.len() as int) == Ok::<Seq<GraphChangeView>, ErrorView>(changes),
        st.versions(t.name, encode_utf8(id)) is Ok,
        graph_holds(graph, id, vector) <==> vector_seen(st, t, column, id, since, vector),
    ensures
        graph_holds(graph_after(graph, changes), id, vector) <==> vector_seen(st, t, column, id, u64::MAX, vector),
{
    let key = encode_utf8(id);
    let s = st.versions(t.name, key)->Ok_0;
    primary::lemma_newest_of(s, u64::MAX);
    primary::lemma_newest_of(s, since);
    let n = groups.len() as int;
    lemma_changes(st, groups, column, since, n, changes);
    lemma_graph_after(graph, changes, key);
    let newest = primary::newest_of(s, u64::MAX);
    if newest is Some && newest->0.version > since {
        let v = newest->0;
        assert(st.visible(t.name, key, u64::MAX) == Ok::<Option<VersionView>, Seq<char>>(Some(v)));
        lemma_visible_held(st, t.name, key, u64::MAX);
        assert(visit::lists_id(groups, key));
        let q = choose|q: int| 0 <= q < groups.len() && (#[trigger] groups[q]).id == key;
        lemma_group_last(st, t, groups[q]);
        let c = vectors::change_since(st, groups[q], column, since)->Ok_0->0;
        assert(told(st, groups, column, since, n, q, c));
        assert(changes.contains(c));
        let k = changes.index_of(c);
        assert(changes[k].id == key);
        if !v.kind.is_tombstone() {
            let rec = segment::record_of(st.images(), st.blobs@, v.kind)->Ok_0;
            let row = state::with_id(t, rec, id);
            let name = encode_utf8(column);
            assert(row.contains_key(name) == rec.contains_key(name));
            if rec.contains_key(name) {
                assert(row[name] == rec[name]);
            }
        }
    } else {
        assert forall|k: int| 0 <= k < changes.len() implies (#[trigger] changes[k]).id != key by {
            if changes[k].id == key {
                assert(changes.contains(changes[k]));
                let q = choose|q: int| #[trigger] told(st, groups, column, since, n, q, changes[k]);
                lemma_group_last(st, t, groups[q]);
            }
        }
        if newest is Some {
            let v = newest->0;
            let i = s.index_of(v);
            assert(s[i].version <= since);
            let w = primary::newest_of(s, since)->0;
            let j = s.index_of(w);
            assert(s[j].version <= u64::MAX);
            assert(s[i].version <= s[j].version && s[j].version <= s[i].version);
            assert(primary::consistent(s));
            assert(s[i] == s[j]);
        } else if let Some(w) = primary::newest_of(s, since) {
            let j = s.index_of(w);
            assert(s[j].version > u64::MAX);
        }
        assert(primary::newest_of(s, since) == newest);
        assert(st.row(t.name, id, since) == st.row(t.name, id, u64::MAX));
    }
}

spec fn told(st: &State, groups: Seq<GroupView>, column: Seq<char>, since: u64, n: int, q: int, c: GraphChangeView) -> bool {
    &&& 0 <= q < n
    &&& vectors::change_since(st, groups[q], column, since) == Ok::<Option<GraphChangeView>, ErrorView>(Some(c))
}

proof fn lemma_changes(st: &State, groups: Seq<GroupView>, column: Seq<char>, since: u64, n: int, changes: Seq<GraphChangeView>)
    requires
        0 <= n <= groups.len(),
        vectors::changes_since(st, groups, column, since, n) == Ok::<Seq<GraphChangeView>, ErrorView>(changes),
        forall|i: int, j: int| 0 <= i < j < groups.len() ==> crate::bytes::lex_lt((#[trigger] groups[i]).id, (#[trigger] groups[j]).id),
    ensures
        forall|c: GraphChangeView| #[trigger] changes.contains(c) ==> exists|q: int| #[trigger] told(st, groups, column, since, n, q, c),
        forall|c: GraphChangeView, q: int| #[trigger] told(st, groups, column, since, n, q, c) ==> changes.contains(c),
        forall|q: int| 0 <= q < n ==> vectors::change_since(st, #[trigger] groups[q], column, since) is Ok,
        forall|i: int, j: int| 0 <= i < j < changes.len() ==> (#[trigger] changes[i]).id != (#[trigger] changes[j]).id,
    decreases n,
{
    if n > 0 {
        let before = vectors::changes_since(st, groups, column, since, n - 1)->Ok_0;
        lemma_changes(st, groups, column, since, n - 1, before);
        assert forall|c: GraphChangeView| #[trigger] changes.contains(c) implies exists|q: int| #[trigger] told(
            st,
            groups,
            column,
            since,
            n,
            q,
            c,
        ) by {
            let i = changes.index_of(c);
            if i < before.len() {
                assert(before[i] == c);
                assert(before.contains(c));
                let q = choose|q: int| #[trigger] told(st, groups, column, since, n - 1, q, c);
                assert(told(st, groups, column, since, n, q, c));
            } else {
                assert(told(st, groups, column, since, n, n - 1, c));
            }
        }
        assert forall|c: GraphChangeView, q: int| #[trigger] told(st, groups, column, since, n, q, c) implies changes.contains(c) by {
            if q < n - 1 {
                assert(told(st, groups, column, since, n - 1, q, c));
                assert(before.contains(c));
                assert(changes[before.index_of(c)] == c);
            } else {
                assert(changes[changes.len() - 1] == c);
            }
        }
        assert forall|i: int, j: int| 0 <= i < j < changes.len() implies (#[trigger] changes[i]).id != (#[trigger] changes[j]).id by {
            assert(changes[i] == before[i]);
            if j >= before.len() {
                assert(before.contains(before[i]));
                let q = choose|q: int| #[trigger] told(st, groups, column, since, n - 1, q, before[i]);
                assert(crate::bytes::lex_lt(groups[q].id, groups[n - 1].id));
                crate::bytes::lemma_lex_irreflexive(groups[q].id);
            } else {
                assert(changes[j] == before[j]);
            }
        }
    }
}

proof fn lemma_graph_after(graph: Map<Seq<u8>, Seq<u32>>, changes: Seq<GraphChangeView>, key: Seq<u8>)
    requires
        forall|i: int, j: int| 0 <= i < j < changes.len() ==> (#[trigger] changes[i]).id != (#[trigger] changes[j]).id,
    ensures
        ({
            let out = graph_after(graph, changes);
            &&& forall|k: int| 0 <= k < changes.len() && (#[trigger] changes[k]).id == key ==> match changes[k].vector {
                Some(v) => out.contains_key(key) && out[key] == v,
                None => !out.contains_key(key),
            }
            &&& (forall|k: int| 0 <= k < changes.len() ==> (#[trigger] changes[k]).id != key) ==> out.contains_key(key) == graph.contains_key(
                key,
            ) && (graph.contains_key(key) ==> out[key] == graph[key])
        }),
    decreases changes.len(),
{
    if changes.len() > 0 {
        let t = changes.drop_last();
        let n = changes.len() - 1;
        assert forall|i: int, j: int| 0 <= i < j < t.len() implies (#[trigger] t[i]).id != (#[trigger] t[j]).id by {
            assert(changes[i].id != changes[j].id);
        }
        lemma_graph_after(graph, t, key);
        if changes[n].id == key {
            assert forall|k: int| 0 <= k < t.len() implies (#[trigger] t[k]).id != key by {
                assert(changes[k].id != changes[n].id);
            }
        } else {
            assert forall|k: int| 0 <= k < changes.len() && (#[trigger] changes[k]).id == key implies match changes[k].vector {
                Some(v) => graph_after(graph, changes).contains_key(key) && graph_after(graph, changes)[key] == v,
                None => !graph_after(graph, changes).contains_key(key),
            } by {
                assert(t[k] == changes[k]);
            }
            if forall|k: int| 0 <= k < changes.len() ==> (#[trigger] changes[k]).id != key {
                assert forall|k: int| 0 <= k < t.len() implies (#[trigger] t[k]).id != key by {
                    assert(changes[k].id != key);
                }
            }
        }
    }
}

/// The last version of a listed record is its newest.
proof fn lemma_group_last(st: &State, t: TableView, g: GroupView)
    requires
        st.versions_ok(),
        st.table_view(t.name) == Some(t),
        st.index.is_record(encode_utf8(t.name), None, g),
    ensures
        match primary::newest_of(st.versions(t.name, g.id)->Ok_0, u64::MAX) {
            Some(v) => g.versions.len() > 0 && g.versions.last() == v,
            None => g.versions.len() == 0,
        },
{
    let s = st.versions(t.name, g.id)->Ok_0;
    primary::lemma_newest_of(s, u64::MAX);
    assert(primary::is_group(g.versions, s));
    if g.versions.len() > 0 {
        let last = g.versions[g.versions.len() - 1];
        assert(s.contains(last));
        let j = s.index_of(last);
        assert(s[j].version <= u64::MAX);
        let v = primary::newest_of(s, u64::MAX)->0;
        let i = s.index_of(v);
        assert(primary::has_version(g.versions, s[i].version));
        let k = choose|k: int| 0 <= k < g.versions.len() && (#[trigger] g.versions[k]).version == s[i].version;
        if k < g.versions.len() - 1 {
            assert(g.versions[k].version < g.versions[g.versions.len() - 1].version);
        }
        assert(primary::consistent(s));
        assert(s[i] == s[j]);
    } else if let Some(v) = primary::newest_of(s, u64::MAX) {
        let i = s.index_of(v);
        assert(primary::has_version(g.versions, s[i].version));
    }
}

/// A record that has a version is held by the primary index.
proof fn lemma_visible_held(st: &State, table: Seq<char>, id: Seq<u8>, max: u64)
    requires
        st.visible(table, id, max) matches Ok(Some(_)),
    ensures
        st.index.has_record(encode_utf8(table), id),
{
    let key = version::key_of(encode_utf8(table), id);
    let s = st.versions(table, id)->Ok_0;
    let runs = st.index.runs@;
    primary::lemma_newest_of(s, max);
    levels::lemma_run_entries(runs, key);
    let v = st.visible(table, id, max)->Ok_0->0;
    let i = s.index_of(v);
    let a = primary::run_entries(runs, key)->Ok_0;
    if i < a.len() {
        assert(a[i] == v);
        assert(a.contains(v));
        let value = choose|value: Seq<u8>| #[trigger] levels::runs_hold(runs, (key, value)) && levels::decodes_to(value, v);
        let q = choose|q: int| 0 <= q < runs.len() && #[trigger] crate::paged::holds_row(runs[q].index.rows(), (key, value));
        let rows = runs[q].index.rows();
        let r = choose|r: int| 0 <= r < rows.len() && #[trigger] rows[r] == (key, value);
        assert(rows[r].0 == key);
        assert(crate::paged::holds_key(runs[q].index.rows(), key));
    }
}

// ---- Compaction by itself ---------------------------------------------------

/// Compaction begins by itself only in a database that can be written, where it
/// is asked for and the pause since the last one is over; and then exactly where
/// there are too many segments, too many bytes to reclaim, or enough changes and a
/// great enough share of the bytes to reclaim.
pub proof fn lemma_compaction_due(a: AutoCompaction, o: AutoCompactionOptions, read_only: bool, segments: int, total: u64, since_last: Option<u128>)
    ensures
        read_only ==> !a.needed(&o, read_only, segments, total, since_last),
        !o.enabled ==> !a.needed(&o, read_only, segments, total, since_last),
        since_last is Some && since_last->0 < o.min_interval_ms * 1_000_000 ==> !a.needed(&o, read_only, segments, total, since_last),
        !read_only && o.enabled && (since_last is None || since_last->0 >= o.min_interval_ms * 1_000_000) ==> {
            &&& segments >= o.max_segments ==> a.needed(&o, read_only, segments, total, since_last)
            &&& a.debt.bytes >= o.force_reclaim_bytes ==> a.needed(&o, read_only, segments, total, since_last)
            &&& segments < o.max_segments && a.debt.bytes < o.force_reclaim_bytes && a.debt.operations < o.min_obsolete_operations
                ==> !a.needed(&o, read_only, segments, total, since_last)
            &&& segments < o.max_segments && a.debt.bytes < o.force_reclaim_bytes && total > 0 && a.debt.bytes * 100
                < o.min_reclaim_ratio_percent * total ==> !a.needed(&o, read_only, segments, total, since_last)
            &&& a.debt.operations >= o.min_obsolete_operations && total > 0 && a.debt.bytes * 100 >= o.min_reclaim_ratio_percent
                * total ==> a.needed(&o, read_only, segments, total, since_last)
        },
{
    if total > 0 {
        let x = a.debt.bytes as int * 100;
        let n = total as int;
        let p = o.min_reclaim_ratio_percent as int;
        assert(x >= p * n ==> x / n >= p) by (nonlinear_arith)
            requires
                n > 0,
        ;
        assert(x < p * n ==> x / n < p) by (nonlinear_arith)
            requires
                n > 0,
        ;
    }
}

/// The versions that compaction could remove are those that it would not retain:
/// there are none exactly where it would retain all.
pub proof fn lemma_debt_is_unretained(vs: Seq<VersionView>, marks: Seq<u64>, epoch: u64, n: int)
    requires
        0 <= n <= vs.len(),
    ensures
        0 <= debt::dropped_count(vs, marks, epoch, n) <= n,
        debt::dropped_count(vs, marks, epoch, n) == 0 <==> forall|i: int| 0 <= i < n ==> #[trigger] compact::retained(vs, marks, epoch, i),
        debt::dropped_count(vs, marks, epoch, n) == n <==> forall|i: int| 0 <= i < n ==> !#[trigger] compact::retained(vs, marks, epoch, i),
    decreases n,
{
    if n > 0 {
        lemma_debt_is_unretained(vs, marks, epoch, n - 1);
    }
}

// ---- Options and memory -----------------------------------------------------

/// Memory options are accepted exactly where every pool, the working memory of a
/// query and the rows of a batch are positive, a query's working memory fits its
/// pool, index deltas fit the maintenance pool, and all pools with the reserve fit
/// the total.
pub proof fn lemma_memory_options_accepted(o: MemoryOptions)
    ensures
        o.complaint() is None <==> {
            &&& o.total_memory_bytes > 0
            &&& o.query_pool_bytes > 0 && o.index_delta_pool_bytes > 0 && o.maintenance_pool_bytes > 0
            &&& 0 < o.query_working_bytes <= o.query_pool_bytes
            &&& o.scan_batch_rows > 0
            &&& o.index_delta_pool_bytes <= o.maintenance_pool_bytes
            &&& o.query_pool_bytes + o.index_delta_pool_bytes + o.maintenance_pool_bytes + o.reserved_memory_bytes <= o.total_memory_bytes
        },
{
}

/// The options of compaction are accepted exactly where the share is a percentage
/// and, where compaction is on, its thresholds are positive and it waits for two
/// segments at least.
pub proof fn lemma_compaction_options_accepted(o: AutoCompactionOptions)
    ensures
        o.complaint() is None <==> o.min_reclaim_ratio_percent <= 100 && (o.enabled ==> o.min_obsolete_operations > 0 && o.force_reclaim_bytes
            > 0 && o.max_segments >= 2),
{
}

/// A request for memory is granted exactly where what is in use and the request
/// together are within the capacity of the pool.
pub proof fn lemma_granted_what_fits(g: MemoryGovernor, bytes: usize)
    ensures
        g.fits(MemoryPool::Query, bytes as int) <==> g.query.used + bytes <= g.limits.query,
        g.fits(MemoryPool::Maintenance, bytes as int) <==> g.maintenance.used + bytes <= g.limits.maintenance,
{
}

// ---- What commits leave behind ----------------------------------------------

/// The changes of a table, among the first `n`, that leave something for
/// compaction: they supersede a version, or delete what is not there.
pub open spec fn leaving(t: StagedView, p: Seq<PreviousView>, n: int) -> Set<int> {
    Set::new(|j: int| 0 <= j < n && (p[j].entry is Some || t.changes[j].operation is None))
}

/// A commit counts as obsolete one operation for every change that leaves
/// something for compaction, and no bytes where nothing is superseded.
pub proof fn lemma_obsolete_counted(t: StagedView, p: Seq<PreviousView>, n: int)
    requires
        0 <= n,
    ensures
        leaving(t, p, n).finite(),
        publish::table_obsolete(t, p, n).0 == leaving(t, p, n).len(),
        (forall|j: int| 0 <= j < n ==> (#[trigger] p[j]).entry is None) ==> publish::table_obsolete(t, p, n).1 == 0,
    decreases n,
{
    if n > 0 {
        lemma_obsolete_counted(t, p, n - 1);
        if p[n - 1].entry is Some || t.changes[n - 1].operation is None {
            assert(leaving(t, p, n) =~= leaving(t, p, n - 1).insert(n - 1));
        } else {
            assert(leaving(t, p, n) =~= leaving(t, p, n - 1));
        }
    } else {
        assert(leaving(t, p, n) =~= Set::empty());
    }
}

} // verus!
