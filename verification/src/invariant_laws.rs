//! Every step of a store keeps the invariant of the committed state.

use crate::bulk::{self, BulkLoad, BulkRow};
use crate::bytes;
use crate::checkpoint::{self, Checkpoint};
use crate::checkpoint_laws;
use crate::compact::{self, RewriteOf, Rewritten, Source};
use crate::compact_laws;
use crate::ddl::RewriteView;
use crate::disk::{self, Disk};
use crate::disk_laws;
use crate::disk_loads;
use crate::disk_open;
use crate::disk_upkeep;
use crate::levels;
use crate::model;
use crate::paged;
use crate::pairs;
use crate::primary::{self, RunMetaView};
use crate::schema::{self, TableView};
use crate::segwrite::{self, ItemView};
use crate::state::State;
use crate::version::{self, VersionView};
use crate::visit::GroupView;
use crate::wal::WalView;
use vstd::prelude::*;
use vstd::utf8::*;

verus! {

/// Under a key the state after has no version that the state before had not.
pub open spec fn no_new_version(before: &State, after: &State, key: Seq<u8>) -> bool {
    before.index.entries(key) matches Ok(s) && after.index.entries(key) matches Ok(t) && forall|i: int|
        0 <= i < t.len() ==> primary::has_version(s, (#[trigger] t[i]).version)
}

/// The greatest ids stay true where no record gets a version.
proof fn lemma_high_kept(before: &State, after: &State)
    requires
        before.high_ok(),
        after.high_ids@ == before.high_ids@,
        after.catalog@ == before.catalog@,
        forall|key: Seq<u8>| #[trigger] no_new_version(before, after, key),
    ensures
        after.high_ok(),
{
    assert forall|table: Seq<char>, id: Seq<u8>| #[trigger] after.above_high(table, id) implies after.latest(table, id) == Ok::<
        Option<VersionView>,
        Seq<char>,
    >(None) by {
        assert(before.above_high(table, id));
        if after.table_view(table) is Some {
            let key = version::key_of(encode_utf8(table), id);
            assert(no_new_version(before, after, key));
            let s = before.index.entries(key)->Ok_0;
            let t = after.index.entries(key)->Ok_0;
            let epoch = after.table_view(table)->0.epoch;
            primary::lemma_newest_of(s, u64::MAX);
            primary::lemma_newest_of(t, u64::MAX);
            if primary::newest_of(t, u64::MAX) is Some {
                let v = primary::newest_of(t, u64::MAX)->0;
                let i = t.index_of(v);
                assert(primary::has_version(s, t[i].version));
                let j = choose|j: int| 0 <= j < s.len() && (#[trigger] s[j]).version == v.version;
                assert(s[j].version <= u64::MAX);
                assert(primary::newest_of(s, u64::MAX) is Some);
                assert(primary::newest_of(s, u64::MAX)->0.version <= epoch);
            }
        }
    }
}

// ---- Checkpoints ------------------------------------------------------------

/// A version of the new run is one that was resident.
proof fn lemma_run_resident(s: Seq<(Seq<u8>, Seq<VersionView>)>, locs: Seq<u64>, segment: u32, tables: Seq<TableView>, key: Seq<u8>, v: VersionView, k: int)
    requires
        pairs::sorted(s),
        disk_laws::run_item(checkpoint::items_of(s), locs, segment, tables, key, v, k),
    ensures
        primary::has_version(primary::resident(pairs::to_map(s), key), v.version),
{
    let items = checkpoint::items_of(s);
    checkpoint::lemma_delta_items(s, s.len() as int);
    assert(checkpoint::has_source(s, s.len() as int, items[k]));
    let (p, q) = choose|p: int, q: int| p < s.len() && #[trigger] checkpoint::came_from(s, p, q, items[k]);
    pairs::lemma_to_map_at(s, p);
    assert(s[p].0 == key);
    let r = primary::resident(pairs::to_map(s), key);
    assert(r[q].version == v.version);
}

proof fn lemma_flush_high(
    before: &State,
    after: &State,
    s: Seq<(Seq<u8>, Seq<VersionView>)>,
    c: Checkpoint,
    order: Seq<usize>,
    locs: Seq<u64>,
    meta: RunMetaView,
    superseded: bool,
    keep_run: bool,
    rest: Map<Seq<u8>, Seq<VersionView>>,
    key: Seq<u8>,
)
    requires
        pairs::sorted(s),
        primary::run_entries(before.index.runs@, key) is Ok,
        checkpoint::holds_items(checkpoint::items_of(s), order, locs, before.catalog@, c),
        checkpoint::taken_over(before, after, c, meta, superseded, keep_run),
        !keep_run ==> c.run.rows().len() == 0,
        after.index.frozen is None,
        after.index.delta@ == rest,
        forall|n: u64|
            primary::has_version(primary::resident(pairs::to_map(s), key), n) || primary::has_version(primary::resident(rest, key), n)
                ==> #[trigger] primary::has_version(
                primary::resident(before.index.frozen_map(), key) + primary::resident(before.index.delta@, key),
                n,
            ),
    ensures
        no_new_version(before, after, key),
{
    let tables = before.catalog@;
    let items = checkpoint::items_of(s);
    disk_laws::lemma_new_run(items, locs, c.segment, tables, c.run.rows(), key);
    checkpoint_laws::lemma_runs_after(before, after, c, meta, superseded, keep_run, key);
    let runs = primary::run_entries(before.index.runs@, key)->Ok_0;
    let list = primary::entries_of(paged::values_of(c.run.rows(), key))->Ok_0;
    let f = primary::resident(before.index.frozen_map(), key);
    let a = primary::resident(before.index.delta@, key);
    let r = primary::resident(rest, key);
    let e = Seq::<VersionView>::empty();
    let x = runs + f + a;
    let y = runs + list + e + r;
    assert(y =~= runs + list + r);
    assert(x =~= runs + (f + a));
    assert forall|i: int| 0 <= i < y.len() implies primary::has_version(x, (#[trigger] y[i]).version) by {
        let v = y[i];
        if i < runs.len() {
            assert(x[i] == y[i]);
        } else {
            if i < runs.len() + list.len() {
                assert(list[i - runs.len()] == v);
                assert(list.contains(v));
                let k = choose|k: int| #[trigger] disk_laws::run_item(items, locs, c.segment, tables, key, v, k);
                lemma_run_resident(s, locs, c.segment, tables, key, v, k);
            } else {
                assert(r[i - runs.len() - list.len()] == v);
                assert(primary::has_version(r, v.version));
            }
            assert(primary::has_version(f + a, v.version));
            let j = choose|j: int| 0 <= j < (f + a).len() && (#[trigger] (f + a)[j]).version == v.version;
            assert(x[runs.len() + j] == (f + a)[j]);
        }
    }
}

proof fn lemma_version_in_parts(a: Seq<VersionView>, b: Seq<VersionView>, n: u64)
    requires
        primary::has_version(a, n) || primary::has_version(b, n),
    ensures
        primary::has_version(a + b, n),
{
    if primary::has_version(a, n) {
        let i = choose|i: int| 0 <= i < a.len() && (#[trigger] a[i]).version == n;
        assert((a + b)[i] == a[i]);
    } else {
        let i = choose|i: int| 0 <= i < b.len() && (#[trigger] b[i]).version == n;
        assert((a + b)[a.len() + i] == b[i]);
    }
}

/// Taking a checkpoint over keeps the invariant.
pub proof fn lemma_checkpoint_invariant(before: &State, after: &State, d: Disk, c: Checkpoint, meta: RunMetaView)
    requires
        before.inv(),
        disk::keeps(d, before),
        before.index.frozen is None,
        checkpoint::is_checkpoint(before.index.delta.pairs(), before.catalog@, before.committed_version, before.metas@, c),
        c.segment == before.next_segment_id,
        checkpoint::taken_over(before, after, c, meta, c.superseded, c.run.rows().len() > 0),
        after.index.delta@ == Map::<Seq<u8>, Seq<VersionView>>::empty(),
        after.index.frozen is None,
    ensures
        after.inv(),
{
    let s = before.index.delta.pairs();
    let none = Map::<Seq<u8>, Seq<VersionView>>::empty();
    let log = Seq::<WalView>::empty();
    before.index.delta.lemma_wf();
    disk_laws::lemma_checkpoint_kept(before, after, d, log, c, meta);
    let d2 = Disk {
        version: before.committed_version,
        segments: d.segments.push(crate::segment::SegmentView { id: c.segment, image: c.image@ }),
        log,
    };
    disk_open::lemma_kept_versions(d2, after);
    let (order, locs) = choose|order: Seq<usize>, locs: Seq<u64>|
        #[trigger] checkpoint::holds_items(checkpoint::items_of(s), order, locs, before.catalog@, c);
    assert forall|key: Seq<u8>| #[trigger] no_new_version(before, after, key) by {
        let f = primary::resident(before.index.frozen_map(), key);
        let a = primary::resident(before.index.delta@, key);
        assert forall|n: u64|
            primary::has_version(primary::resident(pairs::to_map(s), key), n) || primary::has_version(primary::resident(none, key), n) implies #[trigger] primary::has_version(
            f + a,
            n,
        ) by {
            lemma_version_in_parts(f, a, n);
        }
        assert(primary::run_entries(before.index.runs@, key) is Ok);
        lemma_flush_high(before, after, s, c, order, locs, meta, c.superseded, c.run.rows().len() > 0, none, key);
    }
    lemma_high_kept(before, after);
}

/// Taking over a checkpoint of frozen versions keeps the invariant.
pub proof fn lemma_frozen_invariant(before: &State, after: &State, d: Disk, c: Checkpoint, meta: RunMetaView, superseded: bool)
    requires
        before.inv(),
        disk::keeps(d, before),
        before.index.frozen matches Some(f) && checkpoint::is_checkpoint(
            f.delta.pairs(),
            before.catalog@,
            f.version,
            before.metas@,
            c,
        ),
        c.segment == before.next_segment_id,
        checkpoint::taken_over(before, after, c, meta, superseded, true),
        after.index.delta == before.index.delta,
        after.index.frozen is None,
    ensures
        after.inv(),
{
    let fr = before.index.frozen->0;
    let s = fr.delta.pairs();
    fr.delta.lemma_wf();
    disk_laws::lemma_frozen_kept(before, after, d, d.log, c, meta, superseded);
    let d2 = Disk {
        version: fr.version,
        segments: d.segments.push(crate::segment::SegmentView { id: c.segment, image: c.image@ }),
        log: d.log,
    };
    disk_open::lemma_kept_versions(d2, after);
    let (order, locs) = choose|order: Seq<usize>, locs: Seq<u64>|
        #[trigger] checkpoint::holds_items(checkpoint::items_of(s), order, locs, before.catalog@, c);
    assert forall|key: Seq<u8>| #[trigger] no_new_version(before, after, key) by {
        let f = primary::resident(before.index.frozen_map(), key);
        let a = primary::resident(before.index.delta@, key);
        assert forall|n: u64|
            primary::has_version(primary::resident(pairs::to_map(s), key), n) || primary::has_version(
                primary::resident(after.index.delta@, key),
                n,
            ) implies #[trigger] primary::has_version(f + a, n) by {
            lemma_version_in_parts(f, a, n);
        }
        assert(primary::run_entries(before.index.runs@, key) is Ok);
        lemma_flush_high(before, after, s, c, order, locs, meta, superseded, true, after.index.delta@, key);
    }
    lemma_high_kept(before, after);
}

// ---- Loads ------------------------------------------------------------------

/// No loaded id stands above the last.
proof fn lemma_loaded_below(
    before: &State,
    rows: Seq<BulkRow>,
    items: Seq<ItemView>,
    locs: Seq<u64>,
    r: BulkLoad,
    table: Seq<char>,
    id: Seq<u8>,
    k: int,
)
    requires
        before.wf(),
        before.table_view(r.table@) is Some,
        bulk::is_load(before, r.table@, rows, items, locs, r),
        encode_utf8(table).len() <= u32::MAX,
        0 <= k < items.len(),
        items[k].key == version::key_of(encode_utf8(table), id),
    ensures
        table == r.table@,
        bytes::lex_le(id, encode_utf8(r.last_id@)),
{
    let n = items.len() as int;
    let name = r.table@;
    let t = before.table_view(name)->0;
    let high = bulk::high_of(before, name);
    bulk::lemma_ids_rise(t, name, r.version, high, rows, items, n);
    before.lemma_table(name);
    reveal(bulk::rows_ready);
    assert(bulk::row_ready(t, name, r.version, bulk::prev_at(high, items, k), rows[k], items[k]));
    version::lemma_key_injective(encode_utf8(items[k].table), encode_utf8(items[k].id), encode_utf8(table), id);
    bytes::lemma_utf8_injective(table, name);
    if k < n - 1 {
        assert(bytes::lex_lt(encode_utf8(items[k].id), encode_utf8(items[n - 1].id)));
    }
}

/// What stands above the last loaded id stood above the greatest id before.
proof fn lemma_above_before(before: &State, after: &State, rows: Seq<BulkRow>, items: Seq<ItemView>, locs: Seq<u64>, r: BulkLoad, table: Seq<char>, id: Seq<u8>)
    requires
        before.table_view(r.table@) is Some,
        bulk::is_load(before, r.table@, rows, items, locs, r),
        after.high_ids@ == before.high_ids@.insert(encode_utf8(r.table@), r.last_id@),
        after.above_high(table, id),
    ensures
        before.above_high(table, id),
{
    let n = items.len() as int;
    let name = r.table@;
    let high = bulk::high_of(before, name);
    bulk::lemma_ids_rise(before.table_view(name)->0, name, r.version, high, rows, items, n);
    bytes::lemma_utf8_injective(table, name);
    if table == name && high is Some {
        assert(bytes::lex_lt(encode_utf8(high->0), encode_utf8(items[n - 1].id)));
        bytes::lemma_lex_transitive(encode_utf8(high->0), encode_utf8(items[n - 1].id), id);
    }
}

proof fn lemma_load_high(
    before: &State,
    after: &State,
    rows: Seq<BulkRow>,
    items: Seq<ItemView>,
    locs: Seq<u64>,
    r: BulkLoad,
    meta: RunMetaView,
    table: Seq<char>,
    id: Seq<u8>,
)
    requires
        before.wf(),
        before.high_ok(),
        before.table_view(r.table@) is Some,
        bulk::is_load(before, r.table@, rows, items, locs, r),
        bulk::load_taken(before, after, r, meta),
        after.above_high(table, id),
        primary::run_entries(before.index.runs@, version::key_of(encode_utf8(table), id)) is Ok,
    ensures
        after.latest(table, id) == Ok::<Option<VersionView>, Seq<char>>(None),
{
    if after.table_view(table) is Some {
        let key = version::key_of(encode_utf8(table), id);
        let tables = before.catalog@;
        before.lemma_table(table);
        lemma_above_before(before, after, rows, items, locs, r, table, id);
        disk_laws::lemma_new_run(items, locs, r.segment, tables, r.run.rows(), key);
        let list = primary::entries_of(paged::values_of(r.run.rows(), key))->Ok_0;
        if list.len() > 0 {
            assert(list.contains(list[0]));
            let k = choose|k: int| #[trigger] disk_laws::run_item(items, locs, r.segment, tables, key, list[0], k);
            lemma_loaded_below(before, rows, items, locs, r, table, id, k);
            let last = encode_utf8(r.last_id@);
            bytes::lemma_lex_irreflexive(id);
            if id != last {
                bytes::lemma_lex_transitive(id, last, id);
            }
        }
        let runs = primary::run_entries(before.index.runs@, key)->Ok_0;
        let e = Seq::<VersionView>::empty();
        assert(list =~= e);
        assert(runs + e =~= runs);
        assert(primary::run_entries(after.index.runs@, key) == Ok::<Seq<VersionView>, Seq<char>>(runs + list));
        assert(after.index.entries(key) == before.index.entries(key));
        assert(before.latest(table, id) == Ok::<Option<VersionView>, Seq<char>>(None));
    }
}

/// Taking a load over keeps the invariant.
pub proof fn lemma_load_invariant(
    before: &State,
    after: &State,
    d: Disk,
    rows: Seq<BulkRow>,
    items: Seq<ItemView>,
    locs: Seq<u64>,
    r: BulkLoad,
    meta: RunMetaView,
)
    requires
        before.inv(),
        disk::keeps(d, before),
        before.committed_version < u64::MAX,
        before.index.frozen is None,
        before.index.delta@ == Map::<Seq<u8>, Seq<VersionView>>::empty(),
        before.table_view(r.table@) is Some,
        bulk::is_load(before, r.table@, rows, items, locs, r),
        r.segment < u32::MAX,
        bulk::load_taken(before, after, r, meta),
    ensures
        after.inv(),
{
    let log = Seq::<WalView>::empty();
    disk_loads::lemma_load_kept(before, after, d, log, rows, items, locs, r, meta);
    let d2 = Disk {
        version: r.version,
        segments: d.segments.push(crate::segment::SegmentView { id: r.segment, image: r.image@ }),
        log,
    };
    disk_open::lemma_kept_versions(d2, after);
    assert forall|table: Seq<char>, id: Seq<u8>| #[trigger] after.above_high(table, id) implies after.latest(table, id) == Ok::<
        Option<VersionView>,
        Seq<char>,
    >(None) by {
        assert(primary::run_entries(before.index.runs@, version::key_of(encode_utf8(table), id)) is Ok);
        lemma_load_high(before, after, rows, items, locs, r, meta, table, id);
    }
}

// ---- Rewrites ---------------------------------------------------------------

/// The recorded greatest id of a table is at least this one.
pub open spec fn reaches(high: Map<Seq<u8>, Seq<char>>, table: Seq<char>, id: Seq<char>) -> bool {
    high.contains_key(encode_utf8(table)) && bytes::lex_le(encode_utf8(id), encode_utf8(high[encode_utf8(table)]))
}

proof fn lemma_raised(high: Map<Seq<u8>, Seq<char>>, t: Seq<char>, i: Seq<char>, table: Seq<char>, id: Seq<char>)
    ensures
        reaches(high, table, id) ==> reaches(compact::raised(high, t, i), table, id),
        reaches(compact::raised(high, t, i), t, i),
{
    let key = encode_utf8(t);
    if high.contains_key(key) {
        bytes::lemma_lex_trichotomy(encode_utf8(high[key]), encode_utf8(i));
        if reaches(high, table, id) && encode_utf8(table) == key && bytes::lex_lt(encode_utf8(high[key]), encode_utf8(i)) {
            if encode_utf8(id) != encode_utf8(high[key]) {
                bytes::lemma_lex_transitive(encode_utf8(id), encode_utf8(high[key]), encode_utf8(i));
            }
        }
    }
}

proof fn lemma_table_highs(high: Map<Seq<u8>, Seq<char>>, w: RewriteOf, groups: Seq<GroupView>, n: int, table: Seq<char>, id: Seq<char>)
    requires
        0 <= n <= groups.len(),
        reaches(high, table, id) || exists|q: int|
            0 <= q < n && compact::any_selected((#[trigger] groups[q]).versions, w.marks, w.epoch) && table == w.out() && id
                == decode_utf8(groups[q].id),
    ensures
        reaches(compact::table_highs(high, w, groups, n), table, id),
    decreases n,
{
    if n > 0 {
        let g = groups[n - 1];
        let h = compact::table_highs(high, w, groups, n - 1);
        lemma_raised(h, w.out(), decode_utf8(g.id), table, id);
        let last = compact::any_selected(g.versions, w.marks, w.epoch) && table == w.out() && id == decode_utf8(g.id);
        if !last {
            if !reaches(high, table, id) {
                let q = choose|q: int|
                    0 <= q < n && compact::any_selected((#[trigger] groups[q]).versions, w.marks, w.epoch) && table == w.out() && id
                        == decode_utf8(groups[q].id);
                assert(q < n - 1);
            }
            lemma_table_highs(high, w, groups, n - 1, table, id);
        }
    }
}

proof fn lemma_all_highs(st: &State, rw: RewriteView, marks: Seq<u64>, sources: Seq<Source>, n: int, m: ItemView)
    requires
        0 <= n <= sources.len(),
        exists|j: int| #[trigger] compact_laws::source_at(st, rw, marks, sources, n, j, m),
    ensures
        reaches(compact::all_highs(st, rw, marks, sources, n), m.table, m.id),
    decreases n,
{
    let j = choose|j: int| #[trigger] compact_laws::source_at(st, rw, marks, sources, n, j, m);
    let x = sources[n - 1];
    let w = compact::rewrite_of(st, rw, marks, x.table);
    let k = x.groups.len() as int;
    let high = compact::all_highs(st, rw, marks, sources, n - 1);
    if j < n - 1 {
        assert(compact_laws::source_at(st, rw, marks, sources, n - 1, j, m));
        lemma_all_highs(st, rw, marks, sources, n - 1, m);
        lemma_table_highs(high, w, x.groups, k, m.table, m.id);
    } else {
        let q = choose|q: int| #[trigger] compact_laws::table_source(w, x.groups, k, q, m);
        let g = x.groups[q];
        let i = choose|i: int| #[trigger] compact_laws::group_source(w, g, g.versions.len() as int, i, m);
        assert(compact::selected(g.versions, w.marks, w.epoch, i));
        assert(compact::any_selected(x.groups[q].versions, w.marks, w.epoch));
        lemma_table_highs(high, w, x.groups, k, m.table, m.id);
    }
}

/// Taking a rewrite over keeps the invariant.
pub proof fn lemma_rewrite_invariant(
    before: &State,
    after: &State,
    rw: RewriteView,
    marks: Seq<u64>,
    sources: Seq<Source>,
    locs: Seq<u64>,
    r: Rewritten,
    bytes: u64,
    is_ddl: bool,
)
    requires
        before.inv(),
        compact::names_fit(rw),
        disk_loads::outputs_apart(rw, sources),
        compact::is_rewritten(before, rw, marks, sources, locs, r),
        r.segment < u32::MAX,
        compact::rewrite_taken(before, after, r, bytes, is_ddl),
        after.wf(),
        after.tables_ok(),
    ensures
        after.inv(),
{
    let log = Seq::<WalView>::empty();
    let tables = r.catalog@;
    let n = sources.len() as int;
    let items = compact::all_items(before, rw, marks, sources, n);
    disk_loads::lemma_rewrite_kept(before, after, log, rw, marks, sources, locs, r, bytes, is_ddl);
    let d2 = Disk { version: before.committed_version, segments: after.images(), log };
    disk_open::lemma_kept_versions(d2, after);
    compact_laws::lemma_all_items(before, rw, marks, sources, n);
    assert forall|table: Seq<char>, id: Seq<u8>| #[trigger] after.above_high(table, id) implies after.latest(table, id) == Ok::<
        Option<VersionView>,
        Seq<char>,
    >(None) by {
        if after.table_view(table) is Some {
            let key = version::key_of(encode_utf8(table), id);
            after.lemma_table(table);
            disk_laws::lemma_new_run(items, locs, r.segment, tables, r.run.rows(), key);
            let list = primary::entries_of(paged::values_of(r.run.rows(), key))->Ok_0;
            if list.len() > 0 {
                assert(list.contains(list[0]));
                let k = choose|k: int| #[trigger] disk_laws::run_item(items, locs, r.segment, tables, key, list[0], k);
                let m = items[k];
                assert(items.contains(m));
                assert(segwrite::item_fits(m));
                disk_loads::lemma_rewrite_item(before, rw, marks, sources, m);
                version::lemma_key_injective(encode_utf8(m.table), encode_utf8(m.id), encode_utf8(table), id);
                bytes::lemma_utf8_injective(m.table, table);
                lemma_all_highs(before, rw, marks, sources, n, m);
                let high = encode_utf8(after.high_ids@[encode_utf8(table)]);
                bytes::lemma_lex_irreflexive(high);
                if id != high {
                    bytes::lemma_lex_transitive(id, high, id);
                    bytes::lemma_lex_irreflexive(id);
                }
            }
            let e = Seq::<VersionView>::empty();
            assert(list =~= e);
            assert(after.index.runs@.drop_last() =~= Seq::<primary::Run>::empty());
            assert(primary::run_entries(after.index.runs@.drop_last(), key) == Ok::<Seq<VersionView>, Seq<char>>(e));
            assert(e + list =~= e);
            assert(primary::run_entries(after.index.runs@, key) == Ok::<Seq<VersionView>, Seq<char>>(e));
            assert(e + e + e =~= e);
            assert(after.index.entries(key) == Ok::<Seq<VersionView>, Seq<char>>(e));
        }
    }
}

/// Taking a compaction over keeps the invariant.
pub proof fn lemma_compaction_invariant(
    before: &State,
    after: &State,
    marks: Seq<u64>,
    sources: Seq<Source>,
    locs: Seq<u64>,
    r: Rewritten,
    bytes: u64,
)
    requires
        before.inv(),
        compact::is_rewritten(before, RewriteView::Plain, marks, sources, locs, r),
        r.segment < u32::MAX,
        compact::rewrite_taken(before, after, r, bytes, false),
    ensures
        after.inv(),
{
    disk_loads::lemma_outputs_apart(before, RewriteView::Plain, sources);
    assert(after.catalog@ == before.catalog@);
    lemma_rewrite_invariant(before, after, RewriteView::Plain, marks, sources, locs, r, bytes, false);
}

// ---- Tables -----------------------------------------------------------------

/// Creating a table keeps the invariant.
pub proof fn lemma_created_invariant(before: &State, after: &State, d: Disk, t: TableView)
    requires
        before.inv(),
        disk::keeps(d, before),
        after.wf(),
        after.keeps_records(before),
        before.table_view(t.name) is None,
        t.epoch == before.committed_version,
        after.catalog@ == before.catalog@.push(t),
    ensures
        after.inv(),
{
    disk_open::lemma_kept_versions(d, before);
    let old_names = schema::table_names(before.catalog@);
    let names = schema::table_names(after.catalog@);
    model::lemma_find(old_names, t.name);
    assert(names =~= old_names.push(t.name));
    assert(model::distinct(names)) by {
        assert forall|i: int, j: int| 0 <= i < j < names.len() implies #[trigger] names[i] != #[trigger] names[j] by {
            assert(names[i] == old_names[i]);
            if j < old_names.len() {
                assert(names[j] == old_names[j]);
            }
        }
    }
    assert forall|i: int| 0 <= i < after.catalog@.len() implies (#[trigger] after.catalog@[i]).epoch <= after.committed_version by {
        if i < before.catalog@.len() {
            assert(after.catalog@[i] == before.catalog@[i]);
        }
    }
    assert forall|key: Seq<u8>| (#[trigger] after.index.entries(key)) == before.index.entries(key) by {}
    assert(after.versions_ok());
    assert forall|table: Seq<char>, id: Seq<u8>| #[trigger] after.above_high(table, id) implies after.latest(table, id) == Ok::<
        Option<VersionView>,
        Seq<char>,
    >(None) by {
        assert(before.above_high(table, id));
        let key = version::key_of(encode_utf8(table), id);
        assert(before.index.entries(key) is Ok);
        model::lemma_find(names, table);
        model::lemma_find(old_names, table);
        if after.table_view(table) is Some {
            let i = model::find(names, table)->0;
            if i < old_names.len() {
                assert(old_names[i] == table);
                assert(before.table_view(table) is Some);
                let j = model::find(old_names, table)->0;
                assert(names[j] == table);
                assert(i == j);
                assert(before.latest(table, id) == Ok::<Option<VersionView>, Seq<char>>(None));
            } else {
                let s = before.index.entries(key)->Ok_0;
                primary::lemma_newest_of(s, u64::MAX);
                if primary::newest_of(s, u64::MAX) is Some {
                    let k = s.index_of(primary::newest_of(s, u64::MAX)->0);
                    assert(s[k].version <= before.committed_version);
                }
            }
        }
    }
}

// ---- Upkeep -----------------------------------------------------------------

/// Nothing but the runs and the resident versions changed.
pub open spec fn same_beside_index(before: &State, after: &State) -> bool {
    &&& after.wf()
    &&& after.catalog == before.catalog
    &&& after.high_ids == before.high_ids
    &&& after.committed_version == before.committed_version
    &&& after.segments == before.segments
    &&& after.metas == before.metas
    &&& after.next_segment_id == before.next_segment_id
}

proof fn lemma_moved_invariant(before: &State, after: &State, d: Disk)
    requires
        before.inv(),
        disk::keeps(d, after),
        same_beside_index(before, after),
        forall|key: Seq<u8>| #[trigger] no_new_version(before, after, key),
    ensures
        after.inv(),
{
    disk_open::lemma_kept_versions(d, after);
    lemma_high_kept(before, after);
}

/// Freezing keeps the invariant.
pub proof fn lemma_freeze_invariant(before: &State, after: &State, d: Disk)
    requires
        before.inv(),
        disk::keeps(d, before),
        same_beside_index(before, after),
        after.index.runs == before.index.runs,
        before.index.frozen is None,
        after.index.frozen matches Some(f) && f.version == before.committed_version && f.delta == before.index.delta,
        after.index.delta@ == Map::<Seq<u8>, Seq<VersionView>>::empty(),
    ensures
        after.inv(),
{
    disk_upkeep::lemma_freeze_kept(before, after, d);
    disk_open::lemma_kept_versions(d, before);
    assert forall|key: Seq<u8>| #[trigger] no_new_version(before, after, key) by {
        checkpoint_laws::lemma_freeze_keeps_versions(before, after, key);
        assert(before.index.entries(key) is Ok);
        lemma_has_own(before.index.entries(key)->Ok_0);
    }
    lemma_moved_invariant(before, after, d);
}

proof fn lemma_has_own(s: Seq<VersionView>)
    ensures
        forall|i: int| 0 <= i < s.len() ==> primary::has_version(s, (#[trigger] s[i]).version),
{
}

/// Thawing keeps the invariant.
pub proof fn lemma_thaw_invariant(before: &State, after: &State, d: Disk)
    requires
        before.inv(),
        disk::keeps(d, before),
        same_beside_index(before, after),
        after.index.runs == before.index.runs,
        after.index.frozen is None,
        checkpoint::merged_back(before.index.delta@, before.index.frozen_map(), after.index.delta@),
    ensures
        after.inv(),
{
    disk_upkeep::lemma_thaw_kept(before, after, d);
    assert forall|key: Seq<u8>| #[trigger] no_new_version(before, after, key) by {
        assert(primary::run_entries(before.index.runs@, key) is Ok);
        let runs = primary::run_entries(before.index.runs@, key)->Ok_0;
        let f = primary::resident(before.index.frozen_map(), key);
        let a = primary::resident(before.index.delta@, key);
        let now = primary::resident(after.index.delta@, key);
        let e = Seq::<VersionView>::empty();
        let x = runs + f + a;
        let y = runs + e + now;
        assert(y =~= runs + now);
        assert(checkpoint::merged_at(before.index.delta@, before.index.frozen_map(), after.index.delta@, key));
        assert forall|i: int| 0 <= i < y.len() implies primary::has_version(x, (#[trigger] y[i]).version) by {
            if i < runs.len() {
                assert(x[i] == y[i]);
            } else {
                let v = now[i - runs.len()];
                assert(y[i] == v);
                if before.index.frozen_map().contains_key(key) {
                    assert((a + f).contains(v));
                    let k = (a + f).index_of(v);
                    if k < a.len() {
                        assert(x[runs.len() + f.len() + k] == v);
                    } else {
                        assert(x[runs.len() + k - a.len()] == v);
                    }
                } else {
                    assert(x[runs.len() + f.len() + (i - runs.len())] == v);
                }
            }
        }
    }
    lemma_moved_invariant(before, after, d);
}

/// Merging runs keeps the invariant.
pub proof fn lemma_merge_invariant(before: &State, after: &State, d: Disk)
    requires
        before.inv(),
        disk::keeps(d, before),
        same_beside_index(before, after),
        after.index.delta == before.index.delta,
        after.index.frozen == before.index.frozen,
        forall|row: (Seq<u8>, Seq<u8>)|
            #[trigger] levels::runs_hold(after.index.runs@, row) <==> levels::runs_hold(before.index.runs@, row),
    ensures
        after.inv(),
{
    disk_upkeep::lemma_merge_kept(before, after, d);
    assert forall|key: Seq<u8>| #[trigger] no_new_version(before, after, key) by {
        assert(primary::run_entries(before.index.runs@, key) is Ok);
        disk_upkeep::lemma_merged_entries(before.index.runs@, after.index.runs@, key);
        let p = primary::run_entries(before.index.runs@, key)->Ok_0;
        let q = primary::run_entries(after.index.runs@, key)->Ok_0;
        let f = primary::resident(before.index.frozen_map(), key);
        let a = primary::resident(before.index.delta@, key);
        let x = p + f + a;
        let y = q + f + a;
        assert forall|i: int| 0 <= i < y.len() implies primary::has_version(x, (#[trigger] y[i]).version) by {
            if i < q.len() {
                assert(q.contains(q[i]));
                let k = p.index_of(q[i]);
                assert(x[k] == y[i]);
            } else {
                assert(x[p.len() + (i - q.len())] == y[i]);
            }
        }
    }
    lemma_moved_invariant(before, after, d);
}

/// Creating, changing and dropping tables and indexes keeps the invariant, where
/// no name occurs twice.
pub proof fn lemma_catalog_invariant(before: &State, after: &State, d: Disk)
    requires
        before.inv(),
        disk::keeps(d, before),
        after.wf(),
        after.tables_ok(),
        disk_upkeep::same_stored(before, after),
        after.high_ids == before.high_ids,
        after.index.frozen == before.index.frozen,
        disk_upkeep::delta_kept(before, after),
        forall|table: Seq<char>| #[trigger] disk_upkeep::began_before(before, after.catalog@, table),
    ensures
        after.inv(),
{
    disk_upkeep::lemma_catalog_kept(before, after, d);
    disk_open::lemma_kept_versions(d, after);
    assert forall|table: Seq<char>, id: Seq<u8>| #[trigger] after.above_high(table, id) implies after.latest(table, id) == Ok::<
        Option<VersionView>,
        Seq<char>,
    >(None) by {
        assert(before.above_high(table, id));
        assert(disk_upkeep::began_before(before, after.catalog@, table));
        if after.table_view(table) is Some {
            let t = after.table_view(table)->0;
            let key = version::key_of(encode_utf8(table), id);
            assert(after.index.entries(key) is Ok);
            let y = after.index.entries(key)->Ok_0;
            primary::lemma_newest_of(y, u64::MAX);
            if primary::newest_of(y, u64::MAX) is Some {
                let v = primary::newest_of(y, u64::MAX)->0;
                let i = y.index_of(v);
                assert(y[i].version <= after.committed_version);
                if t.epoch < before.committed_version {
                    let runs = primary::run_entries(before.index.runs@, key)->Ok_0;
                    let f = primary::resident(before.index.frozen_map(), key);
                    let a = primary::resident(before.index.delta@, key);
                    let now = primary::resident(after.index.delta@, key);
                    let x = runs + f + a;
                    assert(before.index.entries(key) == Ok::<Seq<VersionView>, Seq<char>>(x));
                    assert(now == a || now.len() == 0);
                    assert(x[i] == y[i]);
                    primary::lemma_newest_of(x, u64::MAX);
                    assert(x[i].version <= u64::MAX);
                    assert(before.latest(table, id) == Ok::<Option<VersionView>, Seq<char>>(None));
                }
            }
        }
    }
}

} // verus!
