//! Loads and rewrites write whole segments: after each the files hold what is
//! committed.

use crate::bulk::{self, BulkLoad, BulkRow};
use crate::bytes;
use crate::compact::{self, RewriteOf, Rewritten, Source};
use crate::compact_laws;
use crate::ddl::{self, RewriteView};
use crate::disk::{self, Disk};
use crate::disk_laws::{self, is_order, items_named, items_sole};
use crate::paged;
use crate::primary::{self, RunMetaView};
use crate::schema::{self, TableView};
use crate::segment::SegmentView;
use crate::segwrite::{self, ItemView};
use crate::state::State;
use crate::version::{self, VersionView};
use crate::visit::GroupView;
use crate::wal::WalView;
use vstd::prelude::*;
use vstd::utf8::*;

verus! {

/// The order in which items stand reaches each of them once.
proof fn lemma_span_is(items: Seq<ItemView>, image: Seq<u8>)
    requires
        image == segwrite::image_bytes(items, segwrite::span(0, items.len() as int), items.len() as int),
        image.len() <= usize::MAX,
    ensures
        is_order(items.len() as int, segwrite::span(0, items.len() as int)),
{
    let n = items.len() as int;
    let order = segwrite::span(0, n);
    disk_laws::lemma_image_long(items, order, n);
    disk_laws::lemma_order_is(n, order);
}

// ---- Loads ------------------------------------------------------------------

/// The items of a load have their keys, and no record is there twice.
pub proof fn lemma_load_items(st: &State, rows: Seq<BulkRow>, items: Seq<ItemView>, locs: Seq<u64>, r: BulkLoad)
    requires
        st.wf(),
        st.table_view(r.table@) is Some,
        bulk::is_load(st, r.table@, rows, items, locs, r),
    ensures
        items_named(items),
        items_sole(items),
        forall|k: int| 0 <= k < items.len() ==> (#[trigger] items[k]).version == r.version && items[k].table == r.table@,
{
    let t = st.table_view(r.table@)->0;
    let high = bulk::high_of(st, r.table@);
    st.lemma_table(r.table@);
    bulk::lemma_ids_rise(t, r.table@, r.version, high, rows, items, items.len() as int);
    reveal(bulk::rows_ready);
    assert forall|k: int| 0 <= k < items.len() implies segwrite::item_fits(#[trigger] items[k]) && items[k].key == version::key_of(
        encode_utf8(items[k].table),
        encode_utf8(items[k].id),
    ) && items[k].version == r.version && items[k].table == r.table@ by {
        assert(bulk::row_ready(t, r.table@, r.version, bulk::prev_at(high, items, k), rows[k], items[k]));
    }
    assert forall|i: int, j: int| 0 <= i < items.len() && 0 <= j < items.len() && (#[trigger] items[i]).key == (
    #[trigger] items[j]).key && items[i].version == items[j].version implies i == j by {
        assert(items[i].table == r.table@ && items[j].table == r.table@);
        version::lemma_key_order(encode_utf8(r.table@), encode_utf8(items[i].id), encode_utf8(items[j].id));
        bytes::lemma_lex_irreflexive(encode_utf8(items[i].id));
    }
}

/// A load: its manifest names the new segment and the version of the load.
pub proof fn lemma_load_kept(
    before: &State,
    after: &State,
    d: Disk,
    log: Seq<WalView>,
    rows: Seq<BulkRow>,
    items: Seq<ItemView>,
    locs: Seq<u64>,
    r: BulkLoad,
    meta: RunMetaView,
)
    requires
        before.wf(),
        disk::keeps(d, before),
        before.committed_version < u64::MAX,
        before.index.frozen is None,
        before.index.delta@ == Map::<Seq<u8>, Seq<VersionView>>::empty(),
        before.table_view(r.table@) is Some,
        bulk::is_load(before, r.table@, rows, items, locs, r),
        r.segment < u32::MAX,
        bulk::load_taken(before, after, r, meta),
        disk_laws::log_fits(log, r.version, r.version),
    ensures
        disk::keeps(
            Disk { version: r.version, segments: d.segments.push(SegmentView { id: r.segment, image: r.image@ }), log },
            after,
        ),
{
    let d2 = Disk { version: r.version, segments: d.segments.push(SegmentView { id: r.segment, image: r.image@ }), log };
    let tables = before.catalog@;
    let n = items.len() as int;
    let order = segwrite::span(0, n);
    vstd::std_specs::vec::axiom_spec_len(&*r.image);
    lemma_load_items(before, rows, items, locs, r);
    lemma_span_is(items, r.image@);
    assert(disk_laws::grown(d, d2, items, order, r.segment, r.image@));
    disk_laws::lemma_grown(d, d2, items, order, r.segment, r.image@);
    disk_laws::lemma_no_logs(d2, d2.version, tables);
    disk_laws::lemma_nothing_above(d2, d2.version, tables);
    assert forall|k: int| 0 <= k < d2.segments.len() implies (#[trigger] d2.segments[k]).id < after.next_segment_id by {
        if k < d.segments.len() {
            assert(d2.segments[k] == d.segments[k]);
        }
    }
    assert(disk::metas_match(after.metas@, d2.segments));
    assert forall|key: Seq<u8>| primary::run_entries(before.index.runs@, key) is Ok implies (#[trigger] primary::run_entries(
        after.index.runs@,
        key,
    )) == Ok::<Seq<VersionView>, Seq<char>>(
        primary::run_entries(before.index.runs@, key)->Ok_0 + primary::entries_of(paged::values_of(r.run.rows(), key))->Ok_0,
    ) by {
        disk_laws::lemma_new_run(items, locs, r.segment, tables, r.run.rows(), key);
    }
    assert forall|key: Seq<u8>| (#[trigger] primary::run_entries(after.index.runs@, key)) matches Ok(t) && disk::list_sound(
        t,
        d2.version,
        after.next_segment_id,
    ) by {
        disk_laws::lemma_new_run(items, locs, r.segment, tables, r.run.rows(), key);
        assert(primary::run_entries(before.index.runs@, key) is Ok);
        let old_list = primary::run_entries(before.index.runs@, key)->Ok_0;
        let list = primary::entries_of(paged::values_of(r.run.rows(), key))->Ok_0;
        disk_laws::lemma_joined_sound(old_list, list, items, locs, r.segment, tables, key, d.version, d2.version);
    }
    assert forall|table: Seq<char>, id: Seq<char>| #[trigger] disk::run_agrees(&after.index, d2, after.catalog@, table, id) by {
        if schema::table_of(tables, table) is Some {
            let key = version::key_of(encode_utf8(table), encode_utf8(id));
            assert(disk::run_agrees(&before.index, d, tables, table, id));
            before.lemma_table(table);
            disk_laws::lemma_new_run(items, locs, r.segment, tables, r.run.rows(), key);
            let old_list = primary::run_entries(before.index.runs@, key)->Ok_0;
            let list = primary::entries_of(paged::values_of(r.run.rows(), key))->Ok_0;
            disk_laws::lemma_grown_agrees(d, d2, items, order, locs, r.segment, r.image@, tables, table, id, old_list, list);
        }
    }
}

// ---- Rewrites ---------------------------------------------------------------

proof fn lemma_group_items_sole(w: RewriteOf, g: GroupView, n: int)
    requires
        0 <= n <= g.versions.len(),
        compact::group_items(w, g, n) is Ok,
        forall|i: int, j: int| 0 <= i < j < g.versions.len() ==> (#[trigger] g.versions[i]).version < (#[trigger] g.versions[j]).version,
    ensures
        items_sole(compact::group_items(w, g, n)->Ok_0),
        forall|k: int|
            0 <= k < compact::group_items(w, g, n)->Ok_0.len() ==> (#[trigger] compact::group_items(w, g, n)->Ok_0[k]).key
                == version::key_of(encode_utf8(w.out()), g.id),
        n < g.versions.len() ==> forall|k: int|
            0 <= k < compact::group_items(w, g, n)->Ok_0.len() ==> (#[trigger] compact::group_items(w, g, n)->Ok_0[k]).version
                < g.versions[n].version,
    decreases n,
{
    if n > 0 {
        lemma_group_items_sole(w, g, n - 1);
        let rest = compact::group_items(w, g, n - 1)->Ok_0;
        let s = compact::group_items(w, g, n)->Ok_0;
        assert forall|k: int| 0 <= k < s.len() implies (#[trigger] s[k]).key == version::key_of(encode_utf8(w.out()), g.id) && s[k].version
            <= g.versions[n - 1].version && (k < rest.len() ==> s[k].version < g.versions[n - 1].version) by {
            if k < rest.len() {
                assert(s[k] == rest[k]);
            }
        }
        if n < g.versions.len() {
            assert(g.versions[n - 1].version < g.versions[n].version);
        }
        assert forall|i: int, j: int| 0 <= i < s.len() && 0 <= j < s.len() && (#[trigger] s[i]).key == (#[trigger] s[j]).key && s[i].version
            == s[j].version implies i == j by {
            if i < rest.len() && j < rest.len() {
                assert(s[i] == rest[i] && s[j] == rest[j]);
            }
        }
    }
}

/// An item has the key of one of the first `n` records.
spec fn group_key(out: Seq<char>, groups: Seq<GroupView>, n: int, m: ItemView) -> bool {
    exists|q: int| 0 <= q < n && m.key == version::key_of(encode_utf8(out), (#[trigger] groups[q]).id)
}

/// Records in the order of their ids, each with its versions in order.
spec fn groups_sound(groups: Seq<GroupView>) -> bool {
    &&& forall|a: int, b: int| 0 <= a < b < groups.len() ==> bytes::lex_lt((#[trigger] groups[a]).id, (#[trigger] groups[b]).id)
    &&& forall|q: int, i: int, j: int|
        0 <= q < groups.len() && 0 <= i < j < groups[q].versions.len() ==> (#[trigger] groups[q].versions[i]).version < (
        #[trigger] groups[q].versions[j]).version
}

proof fn lemma_table_items_sole(w: RewriteOf, groups: Seq<GroupView>, n: int)
    requires
        0 <= n <= groups.len(),
        compact::table_items(w, groups, n) is Ok,
        groups_sound(groups),
    ensures
        items_sole(compact::table_items(w, groups, n)->Ok_0),
        forall|k: int|
            0 <= k < compact::table_items(w, groups, n)->Ok_0.len() ==> group_key(
                w.out(),
                groups,
                n,
                #[trigger] compact::table_items(w, groups, n)->Ok_0[k],
            ),
    decreases n,
{
    if n > 0 {
        lemma_table_items_sole(w, groups, n - 1);
        let g = groups[n - 1];
        assert forall|i: int, j: int| 0 <= i < j < g.versions.len() implies (#[trigger] g.versions[i]).version < (
        #[trigger] g.versions[j]).version by {
            assert(groups[n - 1].versions[i].version < groups[n - 1].versions[j].version);
        }
        lemma_group_items_sole(w, g, g.versions.len() as int);
        let rest = compact::table_items(w, groups, n - 1)->Ok_0;
        let more = compact::group_items(w, g, g.versions.len() as int)->Ok_0;
        let s = compact::table_items(w, groups, n)->Ok_0;
        let key = version::key_of(encode_utf8(w.out()), g.id);
        assert(s == rest + more);
        assert forall|k: int| 0 <= k < s.len() implies group_key(w.out(), groups, n, #[trigger] s[k]) && (k < rest.len() ==> s[k].key
            != key) && (k >= rest.len() ==> s[k].key == key) by {
            if k < rest.len() {
                assert(s[k] == rest[k]);
                assert(group_key(w.out(), groups, n - 1, rest[k]));
                let q = choose|q: int|
                    0 <= q < n - 1 && rest[k].key == version::key_of(encode_utf8(w.out()), (#[trigger] groups[q]).id);
                assert(0 <= q < n && s[k].key == version::key_of(encode_utf8(w.out()), groups[q].id));
                assert(bytes::lex_lt(groups[q].id, groups[n - 1].id));
                bytes::lemma_lex_irreflexive(g.id);
                version::lemma_key_order(encode_utf8(w.out()), groups[q].id, g.id);
            } else {
                assert(s[k] == more[k - rest.len()]);
                assert(s[k].key == version::key_of(encode_utf8(w.out()), groups[n - 1].id));
            }
        }
        assert forall|i: int, j: int| 0 <= i < s.len() && 0 <= j < s.len() && (#[trigger] s[i]).key == (#[trigger] s[j]).key && s[i].version
            == s[j].version implies i == j by {
            if i < rest.len() {
                assert(s[i] == rest[i] && s[j] == rest[j]);
            } else {
                assert(s[i] == more[i - rest.len()] && s[j] == more[j - rest.len()]);
            }
        }
    }
}

/// No two names that have records are written under one name.
pub open spec fn outputs_apart(rw: RewriteView, sources: Seq<Source>) -> bool {
    forall|i: int, j: int|
        0 <= i < sources.len() && 0 <= j < sources.len() && (#[trigger] sources[i]).groups.len() > 0 && (
        #[trigger] sources[j]).groups.len() > 0 && ddl::output_name(rw, sources[i].table) == ddl::output_name(rw, sources[j].table)
            ==> i == j
}

/// An item has a key under the name of one of the first `n` sources.
spec fn source_key(rw: RewriteView, sources: Seq<Source>, n: int, m: ItemView) -> bool {
    exists|x: int|
        0 <= x < n && (#[trigger] sources[x]).groups.len() > 0 && group_key(
            ddl::output_name(rw, sources[x].table),
            sources[x].groups,
            sources[x].groups.len() as int,
            m,
        )
}

pub closed spec fn sources_sound(st: &State, rw: RewriteView, marks: Seq<u64>, sources: Seq<Source>) -> bool {
    forall|x: int|
        0 <= x < sources.len() ==> compact::source_ok(st, rw, marks, #[trigger] sources[x]) && groups_sound(sources[x].groups)
            && encode_utf8(ddl::output_name(rw, sources[x].table)).len() <= u32::MAX
}

proof fn lemma_all_items_sole(st: &State, rw: RewriteView, marks: Seq<u64>, sources: Seq<Source>, n: int)
    requires
        0 <= n <= sources.len(),
        sources_sound(st, rw, marks, sources),
        outputs_apart(rw, sources),
    ensures
        items_sole(compact::all_items(st, rw, marks, sources, n)),
        forall|k: int|
            0 <= k < compact::all_items(st, rw, marks, sources, n).len() ==> source_key(
                rw,
                sources,
                n,
                #[trigger] compact::all_items(st, rw, marks, sources, n)[k],
            ),
    decreases n,
{
    if n > 0 {
        lemma_all_items_sole(st, rw, marks, sources, n - 1);
        let x = sources[n - 1];
        assert(compact::source_ok(st, rw, marks, sources[n - 1]));
        let w = compact::rewrite_of(st, rw, marks, x.table);
        lemma_table_items_sole(w, x.groups, x.groups.len() as int);
        let rest = compact::all_items(st, rw, marks, sources, n - 1);
        let more = compact::table_items(w, x.groups, x.groups.len() as int)->Ok_0;
        let s = compact::all_items(st, rw, marks, sources, n);
        assert(s == rest + more);
        assert forall|k: int| 0 <= k < s.len() implies source_key(rw, sources, n, #[trigger] s[k]) by {
            if k < rest.len() {
                assert(s[k] == rest[k]);
                assert(source_key(rw, sources, n - 1, rest[k]));
                let y = choose|y: int|
                    0 <= y < n - 1 && (#[trigger] sources[y]).groups.len() > 0 && group_key(
                        ddl::output_name(rw, sources[y].table),
                        sources[y].groups,
                        sources[y].groups.len() as int,
                        rest[k],
                    );
                assert(0 <= y < n && sources[y].groups.len() > 0);
            } else {
                assert(s[k] == more[k - rest.len()]);
                assert(group_key(w.out(), x.groups, x.groups.len() as int, more[k - rest.len()]));
                assert(sources[n - 1].groups.len() > 0);
            }
        }
        assert forall|i: int, j: int| 0 <= i < rest.len() && 0 <= j < more.len() implies (#[trigger] rest[i]).key != (
        #[trigger] more[j]).key by {
            assert(source_key(rw, sources, n - 1, rest[i]));
            let y = choose|y: int|
                0 <= y < n - 1 && (#[trigger] sources[y]).groups.len() > 0 && group_key(
                    ddl::output_name(rw, sources[y].table),
                    sources[y].groups,
                    sources[y].groups.len() as int,
                    rest[i],
                );
            let a = ddl::output_name(rw, sources[y].table);
            let b = w.out();
            let p = choose|p: int|
                0 <= p < sources[y].groups.len() && rest[i].key == version::key_of(
                    encode_utf8(a),
                    (#[trigger] sources[y].groups[p]).id,
                );
            assert(group_key(b, x.groups, x.groups.len() as int, more[j]));
            let q = choose|q: int|
                0 <= q < x.groups.len() && more[j].key == version::key_of(encode_utf8(b), (#[trigger] x.groups[q]).id);
            assert(sources[n - 1].groups.len() > 0);
            assert(a != b);
            version::lemma_key_injective(encode_utf8(a), sources[y].groups[p].id, encode_utf8(b), x.groups[q].id);
            bytes::lemma_utf8_injective(a, b);
        }
        assert forall|i: int, j: int| 0 <= i < s.len() && 0 <= j < s.len() && (#[trigger] s[i]).key == (#[trigger] s[j]).key && s[i].version
            == s[j].version implies i == j by {
            if i < rest.len() && j < rest.len() {
                assert(s[i] == rest[i] && s[j] == rest[j]);
            } else if i >= rest.len() && j >= rest.len() {
                assert(s[i] == more[i - rest.len()] && s[j] == more[j - rest.len()]);
            } else if i < rest.len() {
                assert(rest[i].key != more[j - rest.len()].key);
            } else {
                assert(rest[j].key != more[i - rest.len()].key);
            }
        }
    }
}

/// The sources of a rewrite list records in order.
pub proof fn lemma_sources_sound(st: &State, rw: RewriteView, marks: Seq<u64>, sources: Seq<Source>)
    requires
        st.wf(),
        compact::names_fit(rw),
        compact::is_sources(st, rw, sources),
        forall|i: int| 0 <= i < sources.len() ==> compact::source_ok(st, rw, marks, #[trigger] sources[i]),
    ensures
        sources_sound(st, rw, marks, sources),
{
    assert forall|x: int| 0 <= x < sources.len() implies compact::source_ok(st, rw, marks, #[trigger] sources[x]) && groups_sound(
        sources[x].groups,
    ) && encode_utf8(ddl::output_name(rw, sources[x].table)).len() <= u32::MAX by {
        assert(compact::is_source(st, rw, sources[x]));
        let groups = sources[x].groups;
        let t = encode_utf8(sources[x].table);
        assert(st.index.is_listing(t, None, None, groups));
        assert forall|q: int, i: int, j: int| 0 <= q < groups.len() && 0 <= i < j < groups[q].versions.len() implies (
        #[trigger] groups[q].versions[i]).version < (#[trigger] groups[q].versions[j]).version by {
            assert(st.index.is_record(t, None, groups[q]));
        }
        if st.table_view(sources[x].table) is Some {
            st.lemma_table(sources[x].table);
        }
    }
}

/// The name that a source is written under fits a key.
pub proof fn lemma_source_fits(st: &State, rw: RewriteView, marks: Seq<u64>, sources: Seq<Source>, x: int)
    requires
        sources_sound(st, rw, marks, sources),
        0 <= x < sources.len(),
    ensures
        encode_utf8(ddl::output_name(rw, sources[x].table)).len() <= u32::MAX,
{
}

/// An item is a version that the state had, under a key that names it.
pub proof fn lemma_rewrite_item(st: &State, rw: RewriteView, marks: Seq<u64>, sources: Seq<Source>, m: ItemView)
    requires
        st.versions_ok(),
        compact::is_sources(st, rw, sources),
        forall|i: int| 0 <= i < sources.len() ==> compact::source_ok(st, rw, marks, #[trigger] sources[i]),
        compact::all_items(st, rw, marks, sources, sources.len() as int).contains(m),
    ensures
        0 < m.version <= st.committed_version,
        m.key == version::key_of(encode_utf8(m.table), encode_utf8(m.id)),
{
    let n = sources.len() as int;
    compact_laws::lemma_all_items(st, rw, marks, sources, n);
    let j = choose|j: int| #[trigger] compact_laws::source_at(st, rw, marks, sources, n, j, m);
    let s = sources[j];
    let w = compact::rewrite_of(st, rw, marks, s.table);
    let q = choose|q: int| #[trigger] compact_laws::table_source(w, s.groups, s.groups.len() as int, q, m);
    let g = s.groups[q];
    let i = choose|i: int| #[trigger] compact_laws::group_source(w, g, g.versions.len() as int, i, m);
    assert(compact::is_source(st, rw, sources[j]));
    let t = encode_utf8(s.table);
    assert(st.index.is_record(t, None, s.groups[q]));
    decode_utf8_encode_utf8(g.id);
    let vs = st.index.entries(version::key_of(t, g.id))->Ok_0;
    assert(vs.contains(g.versions[i]));
    let k = vs.index_of(g.versions[i]);
    assert(vs[k].version <= st.committed_version);
    let c = choose|c: int| 0 <= c < marks.len() && compact::chosen_at(g.versions, #[trigger] marks[c], w.epoch, i);
    assert(g.versions[i].version > w.epoch);
}

/// A rewrite: its manifest names the new segment alone, with the committed
/// version and the new catalog.
pub proof fn lemma_rewrite_kept(
    before: &State,
    after: &State,
    log: Seq<WalView>,
    rw: RewriteView,
    marks: Seq<u64>,
    sources: Seq<Source>,
    locs: Seq<u64>,
    r: Rewritten,
    bytes: u64,
    is_ddl: bool,
)
    requires
        before.wf(),
        before.versions_ok(),
        compact::names_fit(rw),
        outputs_apart(rw, sources),
        compact::is_rewritten(before, rw, marks, sources, locs, r),
        r.segment < u32::MAX,
        compact::rewrite_taken(before, after, r, bytes, is_ddl),
        after.wf(),
        disk_laws::log_fits(log, before.committed_version, before.committed_version),
    ensures
        disk::keeps(Disk { version: before.committed_version, segments: after.images(), log }, after),
{
    let d0 = Disk { version: 0, segments: Seq::empty(), log };
    let d2 = Disk { version: before.committed_version, segments: after.images(), log };
    let tables = r.catalog@;
    let n = sources.len() as int;
    let items = compact::all_items(before, rw, marks, sources, n);
    let order = segwrite::span(0, items.len() as int);
    let none = Seq::<VersionView>::empty();
    vstd::std_specs::vec::axiom_spec_len(&*r.image);
    lemma_sources_sound(before, rw, marks, sources);
    lemma_all_items_sole(before, rw, marks, sources, n);
    lemma_span_is(items, r.image@);
    assert forall|k: int| 0 <= k < items.len() implies segwrite::item_fits(#[trigger] items[k]) && items[k].key == version::key_of(
        encode_utf8(items[k].table),
        encode_utf8(items[k].id),
    ) && 0 < items[k].version <= before.committed_version by {
        assert(items.contains(items[k]));
        lemma_rewrite_item(before, rw, marks, sources, items[k]);
    }
    assert(d0.sound()) by {
        reveal(Disk::sole);
        reveal(Disk::named);
    }
    assert forall|key: Seq<u8>, w: VersionView| !(#[trigger] d0.stores(key, w)) by {
        if d0.stores(key, w) {
            let (k, a) = choose|k: int, a: int| #[trigger] d0.place(k, a) && d0.at(k, a) == (crate::recover::FoundView { key, entry: w });
        }
    }
    let d1 = Disk { version: before.committed_version, segments: seq![SegmentView { id: r.segment, image: r.image@ }], log };
    assert(d1.segments =~= d0.segments.push(SegmentView { id: r.segment, image: r.image@ }));
    assert(disk_laws::grown(d0, d1, items, order, r.segment, r.image@));
    disk_laws::lemma_no_logs(d2, d2.version, tables);
    disk_laws::lemma_nothing_above(d2, d2.version, tables);
    if items.len() > 0 {
        disk_laws::lemma_grown(d0, d1, items, order, r.segment, r.image@);
        assert(after.images() =~= d1.segments);
        assert(d2 == d1);
    } else {
        assert(after.images() =~= Seq::<SegmentView>::empty());
        assert(d2.sound()) by {
            reveal(Disk::sole);
            reveal(Disk::named);
        }
    }
    assert(disk::metas_match(after.metas@, d2.segments));
    assert(after.index.runs@.drop_last() =~= Seq::<primary::Run>::empty());
    assert forall|key: Seq<u8>| (#[trigger] primary::run_entries(after.index.runs@, key)) matches Ok(t) && disk::list_sound(
        t,
        d2.version,
        after.next_segment_id,
    ) && primary::entries_of(paged::values_of(r.run.rows(), key)) is Ok && t == none + primary::entries_of(
        paged::values_of(r.run.rows(), key),
    )->Ok_0 by {
        disk_laws::lemma_new_run(items, locs, r.segment, tables, r.run.rows(), key);
        let list = primary::entries_of(paged::values_of(r.run.rows(), key))->Ok_0;
        disk_laws::lemma_joined_sound(none, list, items, locs, r.segment, tables, key, 0, d2.version);
        assert(primary::run_entries(after.index.runs@.drop_last(), key) == Ok::<Seq<VersionView>, Seq<char>>(none));
    }
    assert forall|table: Seq<char>, id: Seq<char>| #[trigger] disk::run_agrees(&after.index, d2, after.catalog@, table, id) by {
        if schema::table_of(tables, table) is Some {
            let key = version::key_of(encode_utf8(table), encode_utf8(id));
            after.lemma_table(table);
            disk_laws::lemma_new_run(items, locs, r.segment, tables, r.run.rows(), key);
            assert(primary::run_entries(after.index.runs@, key) is Ok);
            let list = primary::entries_of(paged::values_of(r.run.rows(), key))->Ok_0;
            let epoch = schema::table_of(tables, table)->0.epoch;
            if items.len() > 0 {
                assert(disk::agrees(none, d0, key, epoch));
                disk_laws::lemma_grown_agrees(d0, d1, items, order, locs, r.segment, r.image@, tables, table, id, none, list);
            } else {
                lemma_nothing_agrees(d2, items, locs, r.segment, tables, key, epoch, none + list);
            }
        }
    }
}

/// Where nothing stays, nothing is stored.
proof fn lemma_nothing_agrees(
    d: Disk,
    items: Seq<ItemView>,
    locs: Seq<u64>,
    segment: u32,
    tables: Seq<TableView>,
    key: Seq<u8>,
    epoch: u64,
    list: Seq<VersionView>,
)
    requires
        d.segments.len() == 0,
        items.len() == 0,
        forall|v: VersionView|
            #[trigger] list.contains(v) <==> exists|k: int|
                #[trigger] disk_laws::run_item(items, locs, segment, tables, key, v, k),
    ensures
        disk::agrees(list, d, key, epoch),
{
    assert forall|w: VersionView| !(#[trigger] d.stores(key, w)) by {
        if d.stores(key, w) {
            let (k, a) = choose|k: int, a: int| #[trigger] d.place(k, a) && d.at(k, a) == (crate::recover::FoundView { key, entry: w });
        }
    }
}

/// A rewrite that renames no table writes every table under its own name.
pub proof fn lemma_outputs_apart(st: &State, rw: RewriteView, sources: Seq<Source>)
    requires
        compact::is_sources(st, rw, sources),
        !(rw is RenameTable),
    ensures
        outputs_apart(rw, sources),
{
    assert forall|i: int, j: int| 0 <= i < sources.len() && 0 <= j < sources.len() && (#[trigger] sources[i]).groups.len() > 0 && (
    #[trigger] sources[j]).groups.len() > 0 && ddl::output_name(rw, sources[i].table) == ddl::output_name(rw, sources[j].table) implies i
        == j by {
        bytes::lemma_lex_irreflexive(encode_utf8(sources[i].table));
        if i < j {
            assert(bytes::lex_lt(encode_utf8(sources[i].table), encode_utf8(sources[j].table)));
        }
        if j < i {
            assert(bytes::lex_lt(encode_utf8(sources[j].table), encode_utf8(sources[i].table)));
        }
    }
}

} // verus!
