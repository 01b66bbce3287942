//! Steps that move what is resident or change the catalog: the files hold what
//! is committed after each.

use crate::checkpoint;
use crate::checkpoint_laws;
use crate::disk::{self, Disk};
use crate::disk_laws;
use crate::disk_open;
use crate::levels;
use crate::primary;
use crate::schema::{self, TableView};
use crate::state::State;
use crate::version::{self, VersionView};
use crate::visit;
use vstd::prelude::*;
use vstd::utf8::*;

verus! {

/// The two states have the same runs, segments and committed version.
pub open spec fn same_stored(before: &State, after: &State) -> bool {
    &&& after.committed_version == before.committed_version
    &&& after.index.runs == before.index.runs
    &&& after.segments == before.segments
    &&& after.metas == before.metas
    &&& after.next_segment_id == before.next_segment_id
}

proof fn lemma_runs_same(before: &State, after: &State, d: Disk)
    requires
        disk::keeps(d, before),
        same_stored(before, after),
        after.catalog == before.catalog,
    ensures
        disk::runs_sound(&after.index, d.version, after.next_segment_id),
        disk::runs_agree(&after.index, d, after.catalog@),
{
    assert forall|key: Seq<u8>| (#[trigger] primary::run_entries(after.index.runs@, key)) matches Ok(s) && disk::list_sound(
        s,
        d.version,
        after.next_segment_id,
    ) by {
        assert(primary::run_entries(before.index.runs@, key) is Ok);
    }
    assert forall|table: Seq<char>, id: Seq<char>| #[trigger] disk::run_agrees(&after.index, d, after.catalog@, table, id) by {
        assert(disk::run_agrees(&before.index, d, before.catalog@, table, id));
    }
}

/// Freezing changes nothing of what the files hold.
pub proof fn lemma_freeze_kept(before: &State, after: &State, d: Disk)
    requires
        disk::keeps(d, before),
        same_stored(before, after),
        after.catalog == before.catalog,
        before.index.frozen is None,
        after.index.frozen matches Some(f) && f.version == before.committed_version && f.delta == before.index.delta,
        after.index.delta@ == Map::<Seq<u8>, Seq<VersionView>>::empty(),
    ensures
        disk::keeps(d, after),
{
    lemma_runs_same(before, after, d);
    disk_laws::lemma_delta_capped(before.index.delta@, d, d.version, before.committed_version, before.catalog@);
    disk_laws::lemma_nothing_above(d, before.committed_version, before.catalog@);
}

proof fn lemma_merged_logged(
    active: Map<Seq<u8>, Seq<VersionView>>,
    frozen: Map<Seq<u8>, Seq<VersionView>>,
    after: Map<Seq<u8>, Seq<VersionView>>,
    d: Disk,
    mid: u64,
    tables: Seq<TableView>,
)
    requires
        d.sound(),
        d.version <= mid,
        disk::delta_logged(frozen, d, d.version, mid, tables),
        disk::delta_logged(active, d, mid, u64::MAX, tables),
        checkpoint::merged_back(active, frozen, after),
    ensures
        disk::delta_logged(after, d, d.version, u64::MAX, tables),
{
    assert forall|key: Seq<u8>, v: VersionView| primary::resident(active, key).contains(v) || primary::resident(frozen, key).contains(v) implies #[trigger] d.logs(
        d.version,
        u64::MAX,
        key,
        v,
    ) by {
        disk::lemma_logs_split(d, d.version, mid, u64::MAX, key, v);
    }
    assert forall|key: Seq<u8>, v: VersionView| #[trigger] primary::resident(after, key).contains(v) implies primary::resident(
        active,
        key,
    ).contains(v) || primary::resident(frozen, key).contains(v) by {
        assert(checkpoint::merged_at(active, frozen, after, key));
        if frozen.contains_key(key) {
            let now = primary::resident(after, key);
            let k = now.index_of(v);
            let joined = primary::resident(active, key) + frozen[key];
            assert(joined.contains(now[k]));
            checkpoint_laws::lemma_concat_contains(primary::resident(active, key), frozen[key]);
        }
    }
    assert forall|key: Seq<u8>| disk::rising(#[trigger] primary::resident(after, key)) by {
        assert(checkpoint::merged_at(active, frozen, after, key));
        if !frozen.contains_key(key) {
            assert(disk::rising(primary::resident(active, key)));
        }
    }
    assert forall|key: Seq<u8>| #[trigger] after.contains_key(key) implies after[key].len() > 0 by {
        assert(checkpoint::merged_at(active, frozen, after, key));
        if frozen.contains_key(key) {
            let joined = primary::resident(active, key) + frozen[key];
            let k = joined.len() - 1;
            assert(primary::has_version(after[key], joined[k].version));
        }
    }
    assert forall|table: Seq<char>, id: Seq<char>| #[trigger] disk::log_resident(after, d, d.version, u64::MAX, tables, table, id) by {
        assert(disk::log_resident(frozen, d, d.version, mid, tables, table, id));
        assert(disk::log_resident(active, d, mid, u64::MAX, tables, table, id));
        if schema::table_of(tables, table) is Some {
            let key = version::key_of(encode_utf8(table), encode_utf8(id));
            let t = schema::table_of(tables, table)->0;
            assert(checkpoint::merged_at(active, frozen, after, key));
            assert forall|v: VersionView| #[trigger] d.logs(d.version, u64::MAX, key, v) && v.version > t.epoch implies primary::resident(
                after,
                key,
            ).contains(v) by {
                disk::lemma_logs_split(d, d.version, mid, u64::MAX, key, v);
                if frozen.contains_key(key) {
                    let now = primary::resident(after, key);
                    let joined = primary::resident(active, key) + frozen[key];
                    checkpoint_laws::lemma_concat_contains(primary::resident(active, key), frozen[key]);
                    assert(joined.contains(v));
                    let i = joined.index_of(v);
                    assert(primary::has_version(now, joined[i].version));
                    let k = choose|k: int| 0 <= k < now.len() && (#[trigger] now[k]).version == v.version;
                    assert(now.contains(now[k]));
                    disk_open::lemma_logged_once(d, key, v, now[k]);
                } else {
                    assert(!primary::resident(frozen, key).contains(v));
                    assert(primary::resident(active, key).contains(v));
                }
            }
        }
    }
}

/// Thawing changes nothing of what the files hold.
pub proof fn lemma_thaw_kept(before: &State, after: &State, d: Disk)
    requires
        disk::keeps(d, before),
        same_stored(before, after),
        after.catalog == before.catalog,
        after.index.frozen is None,
        checkpoint::merged_back(before.index.delta@, before.index.frozen_map(), after.index.delta@),
    ensures
        disk::keeps(d, after),
{
    lemma_runs_same(before, after, d);
    lemma_merged_logged(
        before.index.delta@,
        before.index.frozen_map(),
        after.index.delta@,
        d,
        disk::cut(before, d),
        before.catalog@,
    );
    disk_laws::lemma_no_logs(d, d.version, before.catalog@);
}

/// Merging runs that together keep their rows changes nothing of what the files
/// hold.
pub proof fn lemma_merge_kept(before: &State, after: &State, d: Disk)
    requires
        disk::keeps(d, before),
        after.catalog == before.catalog,
        after.committed_version == before.committed_version,
        after.segments == before.segments,
        after.metas == before.metas,
        after.next_segment_id == before.next_segment_id,
        after.index.delta == before.index.delta,
        after.index.frozen == before.index.frozen,
        forall|row: (Seq<u8>, Seq<u8>)|
            #[trigger] levels::runs_hold(after.index.runs@, row) <==> levels::runs_hold(before.index.runs@, row),
    ensures
        disk::keeps(d, after),
{
    let a = before.index.runs@;
    let b = after.index.runs@;
    assert forall|key: Seq<u8>| (#[trigger] primary::run_entries(b, key)) is Ok && forall|v: VersionView|
        primary::run_entries(b, key)->Ok_0.contains(v) <==> primary::run_entries(a, key)->Ok_0.contains(v) by {
        assert(primary::run_entries(a, key) is Ok);
        lemma_merged_entries(a, b, key);
    }
    assert forall|key: Seq<u8>| (#[trigger] primary::run_entries(b, key)) matches Ok(s) && disk::list_sound(
        s,
        d.version,
        after.next_segment_id,
    ) by {
        let s = primary::run_entries(b, key)->Ok_0;
        let t = primary::run_entries(a, key)->Ok_0;
        assert(disk::list_sound(t, d.version, before.next_segment_id));
        assert forall|v: VersionView| #[trigger] s.contains(v) implies v.version <= d.version && disk::lives_below(
            v,
            after.next_segment_id,
        ) by {
            assert(t.contains(v));
        }
        assert forall|i: int, j: int| 0 <= i < s.len() && 0 <= j < s.len() && (#[trigger] s[i]).version == (#[trigger] s[j]).version implies s[i]
            == s[j] by {
            assert(s.contains(s[i]) && s.contains(s[j]));
            let x = t.index_of(s[i]);
            let y = t.index_of(s[j]);
            assert(t[x] == t[y]);
        }
    }
    assert forall|table: Seq<char>, id: Seq<char>| #[trigger] disk::run_agrees(&after.index, d, after.catalog@, table, id) by {
        assert(disk::run_agrees(&before.index, d, before.catalog@, table, id));
        if schema::table_of(after.catalog@, table) is Some {
            let key = version::key_of(encode_utf8(table), encode_utf8(id));
            let epoch = schema::table_of(after.catalog@, table)->0.epoch;
            let s = primary::run_entries(b, key)->Ok_0;
            let t = primary::run_entries(a, key)->Ok_0;
            assert(disk::agrees(t, d, key, epoch));
            assert forall|w: VersionView| #[trigger] d.stores(key, w) && w.version > epoch implies exists|v: VersionView|
                s.contains(v) && #[trigger] disk::same_place(d.segments, v, w) by {
                let v = choose|v: VersionView|
                    t.contains(v) && #[trigger] disk::same_place(d.segments, v, w);
                assert(s.contains(v));
            }
            assert forall|v: VersionView| #[trigger] s.contains(v) && v.version > epoch implies exists|w: VersionView|
                d.stores(key, w) && #[trigger] disk::same_place(d.segments, v, w) by {
                assert(t.contains(v));
            }
        }
    }
}

/// Runs with the same rows have the same versions.
pub proof fn lemma_merged_entries(a: Seq<primary::Run>, b: Seq<primary::Run>, key: Seq<u8>)
    requires
        forall|row: (Seq<u8>, Seq<u8>)| #[trigger] levels::runs_hold(b, row) <==> levels::runs_hold(a, row),
        primary::run_entries(a, key) is Ok,
    ensures
        primary::run_entries(b, key) is Ok,
        forall|v: VersionView| primary::run_entries(b, key)->Ok_0.contains(v) <==> primary::run_entries(a, key)->Ok_0.contains(v),
{
    levels::lemma_run_entries(a, key);
    levels::lemma_run_entries(b, key);
    if primary::run_entries(b, key) is Err {
        let value = choose|value: Seq<u8>| #[trigger] levels::runs_hold(b, (key, value)) && version::entry_of(value) is Err;
        assert(levels::runs_hold(a, (key, value)));
    }
    let s = primary::run_entries(a, key)->Ok_0;
    let t = primary::run_entries(b, key)->Ok_0;
    assert forall|v: VersionView| t.contains(v) <==> s.contains(v) by {
        if t.contains(v) {
            let value = choose|value: Seq<u8>| #[trigger] levels::runs_hold(b, (key, value)) && levels::decodes_to(value, v);
            assert(levels::runs_hold(a, (key, value)) && levels::decodes_to(value, v));
        }
        if s.contains(v) {
            let value = choose|value: Seq<u8>| #[trigger] levels::runs_hold(a, (key, value)) && levels::decodes_to(value, v);
            assert(levels::runs_hold(b, (key, value)) && levels::decodes_to(value, v));
        }
    }
}

// ---- The catalog ------------------------------------------------------------

/// A table of the new catalog began when it did before, or begins now.
pub open spec fn began_before(st: &State, tables: Seq<TableView>, table: Seq<char>) -> bool {
    schema::table_of(tables, table) matches Some(t) ==> t.epoch >= st.committed_version || (st.table_view(table) matches Some(u)
        && u.epoch == t.epoch)
}

/// A record of a table that stays keeps its resident versions.
pub open spec fn record_kept(before: &State, after: &State, table: Seq<char>, id: Seq<char>) -> bool {
    let key = version::key_of(encode_utf8(table), encode_utf8(id));
    schema::table_of(after.catalog@, table) is Some ==> primary::resident(after.index.delta@, key) == primary::resident(
        before.index.delta@,
        key,
    )
}

/// The resident versions of tables that go may go with them.
pub open spec fn delta_kept(before: &State, after: &State) -> bool {
    &&& forall|key: Seq<u8>|
        primary::resident(after.index.delta@, key) == primary::resident(before.index.delta@, key) || (
        #[trigger] primary::resident(after.index.delta@, key)).len() == 0
    &&& forall|key: Seq<u8>| #[trigger]
        after.index.delta@.contains_key(key) ==> before.index.delta@.contains_key(key) && after.index.delta@[key]
            == before.index.delta@[key]
    &&& forall|table: Seq<char>, id: Seq<char>| #[trigger] record_kept(before, after, table, id)
}

/// Tables may be created, changed and dropped: the files hold what is committed
/// under the new catalog.
pub proof fn lemma_catalog_kept(before: &State, after: &State, d: Disk)
    requires
        disk::keeps(d, before),
        same_stored(before, after),
        after.index.frozen == before.index.frozen,
        delta_kept(before, after),
        forall|table: Seq<char>| #[trigger] began_before(before, after.catalog@, table),
    ensures
        disk::keeps(d, after),
{
    let mid = disk::cut(before, d);
    let tables = after.catalog@;
    disk_open::lemma_kept_versions(d, before);
    assert forall|key: Seq<u8>| (#[trigger] primary::run_entries(after.index.runs@, key)) matches Ok(s) && disk::list_sound(
        s,
        d.version,
        after.next_segment_id,
    ) by {
        assert(primary::run_entries(before.index.runs@, key) is Ok);
    }
    assert forall|table: Seq<char>, id: Seq<char>| #[trigger] disk::run_agrees(&after.index, d, tables, table, id) by {
        assert(disk::run_agrees(&before.index, d, before.catalog@, table, id));
        assert(began_before(before, tables, table));
        if schema::table_of(tables, table) is Some {
            let t = schema::table_of(tables, table)->0;
            let key = version::key_of(encode_utf8(table), encode_utf8(id));
            assert(primary::run_entries(before.index.runs@, key) is Ok);
            let s = primary::run_entries(before.index.runs@, key)->Ok_0;
            if t.epoch >= before.committed_version {
                lemma_nothing_counts(before, d, key, s, t.epoch);
            }
        }
    }
    assert forall|delta: Map<Seq<u8>, Seq<VersionView>>, lo: u64, hi: u64, table: Seq<char>, id: Seq<char>|
        disk::log_resident(delta, d, lo, hi, before.catalog@, table, id) implies #[trigger] disk::log_resident(
        delta,
        d,
        lo,
        hi,
        tables,
        table,
        id,
    ) by {
        assert(began_before(before, tables, table));
        if schema::table_of(tables, table) is Some {
            let key = version::key_of(encode_utf8(table), encode_utf8(id));
            let t = schema::table_of(tables, table)->0;
            assert forall|v: VersionView| #[trigger] d.logs(lo, hi, key, v) && v.version > t.epoch implies primary::resident(
                delta,
                key,
            ).contains(v) by {
                let (i, j) = choose|i: int, j: int| #[trigger] d.change(i, j) && disk::logged_as(d.log[i], j, lo, hi, key, v);
                assert(d.log[i].version <= before.committed_version);
            }
        }
    }
    let f = before.index.frozen_map();
    assert(disk::delta_logged(f, d, d.version, mid, tables)) by {
        assert forall|table: Seq<char>, id: Seq<char>| #[trigger] disk::log_resident(f, d, d.version, mid, tables, table, id) by {
            assert(disk::log_resident(f, d, d.version, mid, before.catalog@, table, id));
        }
    }
    let old_delta = before.index.delta@;
    let new_delta = after.index.delta@;
    assert(disk::delta_logged(new_delta, d, mid, u64::MAX, tables)) by {
        assert forall|key: Seq<u8>, v: VersionView| #[trigger] primary::resident(new_delta, key).contains(v) implies d.logs(
            mid,
            u64::MAX,
            key,
            v,
        ) by {
            assert(primary::resident(old_delta, key).contains(v));
        }
        assert forall|key: Seq<u8>| disk::rising(#[trigger] primary::resident(new_delta, key)) by {
            assert(disk::rising(primary::resident(old_delta, key)));
        }
        assert forall|table: Seq<char>, id: Seq<char>| #[trigger] disk::log_resident(
            new_delta,
            d,
            mid,
            u64::MAX,
            tables,
            table,
            id,
        ) by {
            assert(disk::log_resident(old_delta, d, mid, u64::MAX, before.catalog@, table, id));
            assert(disk::log_resident(old_delta, d, mid, u64::MAX, tables, table, id));
            assert(record_kept(before, after, table, id));
        }
    }
}

/// A table that begins now counts nothing that is there.
proof fn lemma_nothing_counts(st: &State, d: Disk, key: Seq<u8>, s: Seq<VersionView>, epoch: u64)
    requires
        st.versions_ok(),
        disk::keeps(d, st),
        primary::run_entries(st.index.runs@, key) == Ok::<Seq<VersionView>, Seq<char>>(s),
        epoch >= st.committed_version,
    ensures
        disk::agrees(s, d, key, epoch),
{
    let all = st.index.entries(key)->Ok_0;
    assert(st.index.entries(key) is Ok);
    assert forall|v: VersionView| #[trigger] s.contains(v) implies v.version <= epoch by {
        let i = s.index_of(v);
        assert(all[i] == s[i]);
    }
    assert forall|w: VersionView| #[trigger] d.stores(key, w) implies w.version <= epoch by {
        let (k, a) = choose|k: int, a: int| #[trigger] d.place(k, a) && d.at(k, a) == (crate::recover::FoundView { key, entry: w });
    }
}

/// A dropped table takes its resident versions along, and those of no other.
pub proof fn lemma_drop_delta(before: &State, after: &State, table: Seq<char>)
    requires
        after.wf(),
        encode_utf8(table).len() <= u32::MAX,
        after.table_view(table) is None,
        after.index.delta@ == visit::without_prefix(before.index.delta@, version::table_prefix(encode_utf8(table))),
    ensures
        delta_kept(before, after),
{
    let prefix = version::table_prefix(encode_utf8(table));
    assert forall|key: Seq<u8>|
        primary::resident(after.index.delta@, key) == primary::resident(before.index.delta@, key) || (
        #[trigger] primary::resident(after.index.delta@, key)).len() == 0 by {}
    assert forall|other: Seq<char>, id: Seq<char>| #[trigger] record_kept(before, after, other, id) by {
        if schema::table_of(after.catalog@, other) is Some {
            let key = version::key_of(encode_utf8(other), encode_utf8(id));
            after.lemma_table(other);
            if prefix.is_prefix_of(key) {
                version::lemma_key_table(encode_utf8(table), encode_utf8(other), encode_utf8(id));
                crate::bytes::lemma_utf8_injective(table, other);
            }
        }
    }
}

} // verus!
