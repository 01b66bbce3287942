//! What checkpoints mean to readers: nothing.

use crate::checkpoint::{self, Checkpoint};
use crate::levels;
use crate::paged;
use crate::pairs;
use crate::primary::{self, RunMetaView};
use crate::schema::TableView;
use crate::segment::{self, SegmentView};
use crate::segwrite::{self, ItemView};
use crate::state::{self, State};
use crate::version::{self, KindView, VersionView};
use vstd::prelude::*;
use vstd::utf8::*;

verus! {

/// Two versions that readers cannot tell apart, one over each set of segments.
pub open spec fn same_content(before: Seq<SegmentView>, after: Seq<SegmentView>, v: VersionView, w: VersionView) -> bool {
    &&& v.version == w.version
    &&& v.kind.is_tombstone() == w.kind.is_tombstone()
    &&& segment::payload_of(before, v.kind) == segment::payload_of(after, w.kind)
}

pub open spec fn same_answer(before: Seq<SegmentView>, after: Seq<SegmentView>, a: Option<VersionView>, b: Option<VersionView>) -> bool {
    match (a, b) {
        (Some(v), Some(w)) => same_content(before, after, v, w),
        (None, None) => true,
        _ => false,
    }
}

/// A version of the list that stands for `v`.
pub open spec fn stands_for(list: Seq<VersionView>, before: Seq<SegmentView>, after: Seq<SegmentView>, v: VersionView, w: VersionView) -> bool {
    list.contains(w) && same_content(before, after, v, w)
}

/// Some versions are replaced by others that readers cannot tell from them;
/// those that the table no longer counts may be dropped.
pub open spec fn replaced(
    old_list: Seq<VersionView>,
    new_list: Seq<VersionView>,
    common: Seq<VersionView>,
    from: Seq<VersionView>,
    to: Seq<VersionView>,
    before: Seq<SegmentView>,
    after: Seq<SegmentView>,
    epoch: u64,
) -> bool {
    &&& forall|v: VersionView| #[trigger] old_list.contains(v) <==> common.contains(v) || from.contains(v)
    &&& forall|v: VersionView| #[trigger] new_list.contains(v) <==> common.contains(v) || to.contains(v)
    &&& forall|v: VersionView| #[trigger] common.contains(v) ==> segment::payload_of(before, v.kind) == segment::payload_of(
        after,
        v.kind,
    )
    &&& forall|v: VersionView| #[trigger] from.contains(v) && v.version > epoch ==> exists|w: VersionView|
        #[trigger] stands_for(to, before, after, v, w)
    &&& forall|w: VersionView| #[trigger] to.contains(w) ==> exists|v: VersionView|
        from.contains(v) && #[trigger] same_content(before, after, v, w)
}

proof fn lemma_replaced(
    old_list: Seq<VersionView>,
    new_list: Seq<VersionView>,
    common: Seq<VersionView>,
    from: Seq<VersionView>,
    to: Seq<VersionView>,
    before: Seq<SegmentView>,
    after: Seq<SegmentView>,
    max: u64,
    epoch: u64,
)
    requires
        primary::consistent(old_list),
        replaced(old_list, new_list, common, from, to, before, after, epoch),
    ensures
        same_answer(before, after, state::current(old_list, max, epoch), state::current(new_list, max, epoch)),
{
    primary::lemma_newest_of(old_list, max);
    primary::lemma_newest_of(new_list, max);
    match state::current(new_list, max, epoch) {
        Some(w) => {
            // Whatever the new list shows, the old one has at the same version.
            let u = if common.contains(w) {
                w
            } else {
                choose|v: VersionView| from.contains(v) && #[trigger] same_content(before, after, v, w)
            };
            assert(new_list.contains(w));
            assert(old_list.contains(u));
            assert(same_content(before, after, u, w));
            let i = old_list.index_of(u);
            assert(old_list[i].version <= max);
            assert(primary::newest_of(old_list, max) is Some);
            let b = primary::newest_of(old_list, max)->0;
            assert(b.version >= u.version);
            // And nothing newer.
            if common.contains(b) {
                assert(new_list.contains(b));
                let j = new_list.index_of(b);
                assert(new_list[j].version <= max);
            } else {
                assert(from.contains(b));
                let x = choose|x: VersionView| #[trigger] stands_for(to, before, after, b, x);
                assert(new_list.contains(x));
                let j = new_list.index_of(x);
                assert(new_list[j].version <= max);
            }
            assert(b.version == u.version);
            let j = old_list.index_of(b);
            assert(old_list[i] == old_list[j]);
        },
        None => {
            if state::current(old_list, max, epoch) is Some {
                let b = state::current(old_list, max, epoch)->0;
                assert(old_list.contains(b));
                if common.contains(b) {
                    assert(new_list.contains(b));
                    let j = new_list.index_of(b);
                    assert(new_list[j].version <= max);
                } else {
                    assert(from.contains(b));
                    let x = choose|x: VersionView| #[trigger] stands_for(to, before, after, b, x);
                    assert(new_list.contains(x));
                    let j = new_list.index_of(x);
                    assert(new_list[j].version <= max);
                }
            }
        },
    }
}

/// No version of the state lives in the segment.
pub open spec fn avoids(st: &State, id: u32) -> bool {
    forall|key: Seq<u8>, v: VersionView| #[trigger] has_version_at(st, key, v) ==> !lives_in(v, id)
}

pub open spec fn has_version_at(st: &State, key: Seq<u8>, v: VersionView) -> bool {
    st.index.entries(key) matches Ok(s) && s.contains(v)
}

pub open spec fn lives_in(v: VersionView, id: u32) -> bool {
    v.kind matches KindView::SegPut { segment, .. } && segment == id
}

pub proof fn lemma_payload_kept(images: Seq<SegmentView>, more: SegmentView, v: VersionView)
    requires
        !lives_in(v, more.id),
    ensures
        segment::payload_of(images, v.kind) == segment::payload_of(images.push(more), v.kind),
{
    assert(images.push(more).drop_last() =~= images);
}

pub open spec fn all_resident(delta: Map<Seq<u8>, Seq<VersionView>>) -> bool {
    forall|key: Seq<u8>, i: int|
        delta.contains_key(key) && 0 <= i < delta[key].len() ==> (#[trigger] delta[key][i]).kind.is_resident()
}

/// What the run of a checkpoint has of a record: its resident versions that the
/// table counts, as readers of the new segment see them.
proof fn lemma_new_entries(
    s: Seq<(Seq<u8>, Seq<VersionView>)>,
    tables: Seq<TableView>,
    c: Checkpoint,
    order: Seq<usize>,
    locs: Seq<u64>,
    images: Seq<SegmentView>,
    table: Seq<char>,
    id: Seq<char>,
)
    requires
        pairs::sorted(s),
        all_resident(pairs::to_map(s)),
        checkpoint::holds_items(checkpoint::items_of(s), order, locs, tables, c),
        encode_utf8(table).len() <= u32::MAX,
    ensures
        ({
            let key = version::key_of(encode_utf8(table), encode_utf8(id));
            let after = images.push(SegmentView { id: c.segment, image: c.image@ });
            let from = primary::resident(pairs::to_map(s), key);
            let values = paged::values_of(c.run.rows(), key);
            &&& primary::entries_of(values) is Ok
            &&& forall|v: VersionView| #[trigger] from.contains(v) && v.version > segwrite::epoch_of(tables, table) ==> exists|
                w: VersionView,
            | #[trigger] stands_for(primary::entries_of(values)->Ok_0, images, after, v, w)
            &&& forall|w: VersionView| #[trigger] primary::entries_of(values)->Ok_0.contains(w) ==> exists|v: VersionView|
                from.contains(v) && #[trigger] same_content(images, after, v, w)
            &&& values.len() > 0 ==> c.run.rows().len() > 0
        }),
{
    let key = version::key_of(encode_utf8(table), encode_utf8(id));
    let after = images.push(SegmentView { id: c.segment, image: c.image@ });
    let from = primary::resident(pairs::to_map(s), key);
    let rows = c.run.rows();
    let values = paged::values_of(rows, key);
    let items = checkpoint::items_of(s);
    let n = items.len() as int;
    version::lemma_key_round_trip(table, id);
    encode_utf8_decode_utf8(table);
    encode_utf8_decode_utf8(id);
    checkpoint::lemma_delta_items(s, s.len() as int);
    levels::lemma_entries_of(values);
    assert(after.last() == SegmentView { id: c.segment, image: c.image@ });
    // A row of the key is the row of a version of the record.
    assert forall|value: Seq<u8>| #[trigger] values.contains(value) implies exists|k: int|
        #[trigger] segwrite::is_row_of(items, locs, c.segment, tables, k, (key, value)) by {
        paged::lemma_values_of(rows, key, value);
        segwrite::lemma_run_rows(items, locs, c.segment, tables, n, (key, value));
        let k = choose|k: int| k < n && #[trigger] segwrite::is_row_of(items, locs, c.segment, tables, k, (key, value));
        assert(segwrite::is_row_of(items, locs, c.segment, tables, k, (key, value)));
    }
    if primary::entries_of(values) is Err {
        let i = choose|i: int| 0 <= i < values.len() && version::entry_of(#[trigger] values[i]) is Err;
        assert(values.contains(values[i]));
        let k = choose|k: int| #[trigger] segwrite::is_row_of(items, locs, c.segment, tables, k, (key, values[i]));
        version::lemma_entry_round_trip(segwrite::placed(items[k], c.segment, locs[k]));
    }
    let list = primary::entries_of(values)->Ok_0;
    assert forall|w: VersionView| #[trigger] list.contains(w) implies exists|v: VersionView|
        from.contains(v) && #[trigger] same_content(images, after, v, w) by {
        let i = list.index_of(w);
        assert(version::entry_of(values[i]) == Ok::<VersionView, Seq<char>>(list[i]));
        assert(values.contains(values[i]));
        let k = choose|k: int| #[trigger] segwrite::is_row_of(items, locs, c.segment, tables, k, (key, values[i]));
        version::lemma_entry_round_trip(segwrite::placed(items[k], c.segment, locs[k]));
        assert(w == segwrite::placed(items[k], c.segment, locs[k]));
        assert(checkpoint::has_source(s, s.len() as int, items[k]));
        let (p, q) = choose|p: int, q: int| p < s.len() && #[trigger] checkpoint::came_from(s, p, q, items[k]);
        let v = s[p].1[q];
        pairs::lemma_to_map_at(s, p);
        assert(s[p].0 == key);
        assert(from.contains(v));
        lemma_placed(images, c, items[k], v, locs[k], key);
    }
    assert forall|v: VersionView| #[trigger] from.contains(v) && v.version > segwrite::epoch_of(tables, table) implies exists|
        w: VersionView,
    | #[trigger] stands_for(list, images, after, v, w) by {
        assert(pairs::has_key(s, key));
        let p = pairs::index_of(s, key);
        pairs::lemma_to_map_at(s, p);
        let q = s[p].1.index_of(v);
        assert(s[p].1[q] == v);
        assert(pairs::to_map(s)[key][q].kind.is_resident());
        let m = checkpoint::item_for(key, v);
        assert(items.contains(m));
        let k = items.index_of(m);
        let w = segwrite::placed(m, c.segment, locs[k]);
        let value = version::entry_bytes(w);
        assert(m.table == table);
        assert(segwrite::is_row_of(items, locs, c.segment, tables, k, (key, value)));
        segwrite::lemma_run_rows(items, locs, c.segment, tables, n, (key, value));
        paged::lemma_values_of(rows, key, value);
        assert(values.contains(value));
        let i = values.index_of(value);
        version::lemma_entry_round_trip(w);
        assert(version::entry_of(values[i]) == Ok::<VersionView, Seq<char>>(list[i]));
        assert(list[i] == w);
        lemma_placed(images, c, m, v, locs[k], key);
        assert(stands_for(list, images, after, v, w));
    }
    if values.len() > 0 {
        let value = values[0];
        assert(values.contains(value));
        paged::lemma_values_of(rows, key, value);
        let i = choose|i: int| 0 <= i < rows.len() && #[trigger] rows[i] == (key, value);
    }
}

proof fn lemma_placed(images: Seq<SegmentView>, c: Checkpoint, m: ItemView, v: VersionView, at: u64, key: Seq<u8>)
    requires
        m == checkpoint::item_for(key, v),
        v.kind.is_resident(),
        segwrite::located_at(m, at, c.image@),
        segwrite::item_fits(m),
    ensures
        same_content(
            images,
            images.push(SegmentView { id: c.segment, image: c.image@ }),
            v,
            segwrite::placed(m, c.segment, at),
        ),
{
    let after = images.push(SegmentView { id: c.segment, image: c.image@ });
    assert(after.last() == SegmentView { id: c.segment, image: c.image@ });
    match v.kind {
        KindView::MemPut(p) => {
            assert(m.payload == Some(p));
            assert(p.len() as u32 == p.len());
        },
        _ => {},
    }
}

/// A reader of any version gets the same row over both states.
pub open spec fn same_rows(before: &State, after: &State, table: Seq<char>, id: Seq<char>, max: u64) -> bool {
    after.row(table, id, max) == before.row(table, id, max)
}

/// A reader of any version sees versions of a record that cannot be told apart.
pub open spec fn same_reading(before: &State, after: &State, table: Seq<char>, id: Seq<char>, max: u64) -> bool {
    match (before.visible(table, encode_utf8(id), max), after.visible(table, encode_utf8(id), max)) {
        (Ok(a), Ok(b)) => same_answer(before.images(), after.images(), a, b),
        (Err(m), Err(n)) => m == n,
        _ => false,
    }
}

/// Every version of a record is one that cannot be told from a version that it
/// had before.
pub open spec fn held_before(before: &State, after: &State, table: Seq<char>, id: Seq<char>) -> bool {
    after.versions(table, encode_utf8(id)) matches Ok(t) ==> before.versions(table, encode_utf8(id)) matches Ok(s) && forall|
        w: VersionView,
    | #[trigger]
        t.contains(w) ==> exists|v: VersionView| s.contains(v) && #[trigger] same_content(before.images(), after.images(), v, w)
}

proof fn lemma_held(
    before: &State,
    after: &State,
    table: Seq<char>,
    id: Seq<char>,
    common: Seq<VersionView>,
    from: Seq<VersionView>,
    to: Seq<VersionView>,
    epoch: u64,
)
    requires
        before.versions(table, encode_utf8(id)) is Ok,
        after.versions(table, encode_utf8(id)) is Ok,
        replaced(
            before.versions(table, encode_utf8(id))->Ok_0,
            after.versions(table, encode_utf8(id))->Ok_0,
            common,
            from,
            to,
            before.images(),
            after.images(),
            epoch,
        ),
    ensures
        held_before(before, after, table, id),
{
    let s = before.versions(table, encode_utf8(id))->Ok_0;
    let t = after.versions(table, encode_utf8(id))->Ok_0;
    assert forall|w: VersionView| #[trigger] t.contains(w) implies exists|v: VersionView|
        s.contains(v) && #[trigger] same_content(before.images(), after.images(), v, w) by {
        if common.contains(w) {
            assert(s.contains(w) && same_content(before.images(), after.images(), w, w));
        } else {
            let v = choose|v: VersionView| from.contains(v) && #[trigger] same_content(before.images(), after.images(), v, w);
            assert(s.contains(v));
        }
    }
}

proof fn lemma_row_same(before: &State, after: &State, table: Seq<char>, id: Seq<char>, max: u64)
    requires
        after.catalog == before.catalog,
        after.blobs == before.blobs,
        before.table_view(table) is Some,
        match (before.versions(table, encode_utf8(id)), after.versions(table, encode_utf8(id))) {
            (Ok(s), Ok(t)) => same_answer(
                before.images(),
                after.images(),
                state::current(s, max, before.table_view(table)->0.epoch),
                state::current(t, max, before.table_view(table)->0.epoch),
            ),
            (Err(m), Err(n)) => m == n,
            _ => false,
        },
    ensures
        same_rows(before, after, table, id, max),
{
}

/// The run that a checkpoint adds, seen through the index.
pub proof fn lemma_runs_after(before: &State, after: &State, c: Checkpoint, meta: RunMetaView, superseded: bool, keep_run: bool, key: Seq<u8>)
    requires
        checkpoint::taken_over(before, after, c, meta, superseded, keep_run),
        primary::entries_of(paged::values_of(c.run.rows(), key)) is Ok,
        !keep_run ==> c.run.rows().len() == 0,
    ensures
        match primary::run_entries(before.index.runs@, key) {
            Err(m) => primary::run_entries(after.index.runs@, key) == Err::<Seq<VersionView>, Seq<char>>(m),
            Ok(s) => primary::run_entries(after.index.runs@, key) == Ok::<Seq<VersionView>, Seq<char>>(
                s + primary::entries_of(paged::values_of(c.run.rows(), key))->Ok_0,
            ),
        },
{
    if !keep_run {
        assert(c.run.rows() =~= Seq::<(Seq<u8>, Seq<u8>)>::empty());
        match primary::run_entries(before.index.runs@, key) {
            Ok(s) => {
                assert(s + Seq::<VersionView>::empty() =~= s);
            },
            Err(_) => {},
        }
    }
}

/// A checkpoint of all resident versions changes nothing that a reader of any
/// version gets.
pub proof fn lemma_checkpoint_keeps_rows(
    before: &State,
    after: &State,
    c: Checkpoint,
    meta: RunMetaView,
    table: Seq<char>,
    id: Seq<char>,
    max: u64,
)
    requires
        before.wf(),
        before.versions_ok(),
        before.index.frozen is None,
        all_resident(before.index.delta@),
        avoids(before, c.segment),
        checkpoint::is_checkpoint(before.index.delta.pairs(), before.catalog@, before.committed_version, before.metas@, c),
        checkpoint::taken_over(before, after, c, meta, c.superseded, c.run.rows().len() > 0),
        after.index.delta@ == Map::<Seq<u8>, Seq<VersionView>>::empty(),
        after.index.frozen is None,
        before.table_view(table) is Some,
    ensures
        same_rows(before, after, table, id, max),
        same_reading(before, after, table, id, max),
        held_before(before, after, table, id),
{
    let key = version::key_of(encode_utf8(table), encode_utf8(id));
    let s = before.index.delta.pairs();
    before.index.delta.lemma_wf();
    before.lemma_table(table);
    let t = before.table_view(table)->0;
    let (order, locs) = choose|order: Seq<usize>, locs: Seq<u64>|
        #[trigger] checkpoint::holds_items(checkpoint::items_of(s), order, locs, before.catalog@, c);
    lemma_new_entries(s, before.catalog@, c, order, locs, before.images(), table, id);
    lemma_runs_after(before, after, c, meta, c.superseded, c.run.rows().len() > 0, key);
    let to = primary::entries_of(paged::values_of(c.run.rows(), key))->Ok_0;
    let from = primary::resident(before.index.delta@, key);
    match primary::run_entries(before.index.runs@, key) {
        Err(_) => {
            lemma_row_same(before, after, table, id, max);
        },
        Ok(common) => {
            let empty = Seq::<VersionView>::empty();
            let old_list = common + empty + from;
            let new_list = common + to + empty + empty;
            assert(old_list =~= common + from);
            assert(new_list =~= common + to);
            assert(before.index.entries(key) == Ok::<Seq<VersionView>, Seq<char>>(old_list));
            assert(after.index.entries(key) == Ok::<Seq<VersionView>, Seq<char>>(new_list));
            lemma_concat_contains(common, from);
            lemma_concat_contains(common, to);
            assert forall|v: VersionView| #[trigger] common.contains(v) implies segment::payload_of(before.images(), v.kind)
                == segment::payload_of(after.images(), v.kind) by {
                assert(old_list.contains(v));
                assert(has_version_at(before, key, v));
                lemma_payload_kept(before.images(), SegmentView { id: c.segment, image: c.image@ }, v);
            }
            assert(replaced(old_list, new_list, common, from, to, before.images(), after.images(), t.epoch));
            lemma_replaced(old_list, new_list, common, from, to, before.images(), after.images(), max, t.epoch);
            lemma_held(before, after, table, id, common, from, to, t.epoch);
            lemma_row_same(before, after, table, id, max);
        },
    }
}

/// What a joined list has, one of its parts has.
pub proof fn lemma_concat_contains(a: Seq<VersionView>, b: Seq<VersionView>)
    ensures
        forall|v: VersionView| #[trigger] (a + b).contains(v) <==> a.contains(v) || b.contains(v),
{
    let c = a + b;
    assert forall|v: VersionView| #[trigger] c.contains(v) <==> a.contains(v) || b.contains(v) by {
        if a.contains(v) {
            assert(c[a.index_of(v)] == v);
        }
        if b.contains(v) {
            assert(c[a.len() + b.index_of(v)] == v);
        }
        if c.contains(v) {
            let k = c.index_of(v);
            if k < a.len() {
                assert(a[k] == v);
            } else {
                assert(b[k - a.len()] == v);
            }
        }
    }
}

/// A checkpoint of frozen versions changes nothing that a reader of any version
/// gets, whatever was committed while it was written.
pub proof fn lemma_frozen_checkpoint_keeps_rows(
    before: &State,
    after: &State,
    c: Checkpoint,
    meta: RunMetaView,
    superseded: bool,
    version: u64,
    table: Seq<char>,
    id: Seq<char>,
    max: u64,
)
    requires
        before.wf(),
        before.versions_ok(),
        before.index.frozen is Some,
        all_resident(before.index.frozen->0.delta@),
        avoids(before, c.segment),
        checkpoint::is_checkpoint(before.index.frozen->0.delta.pairs(), before.catalog@, version, before.metas@, c),
        checkpoint::taken_over(before, after, c, meta, superseded, true),
        after.index.delta == before.index.delta,
        after.index.frozen is None,
        before.table_view(table) is Some,
    ensures
        same_rows(before, after, table, id, max),
        same_reading(before, after, table, id, max),
        held_before(before, after, table, id),
{
    let key = version::key_of(encode_utf8(table), encode_utf8(id));
    let f = before.index.frozen->0;
    let s = f.delta.pairs();
    f.delta.lemma_wf();
    before.lemma_table(table);
    let t = before.table_view(table)->0;
    let (order, locs) = choose|order: Seq<usize>, locs: Seq<u64>|
        #[trigger] checkpoint::holds_items(checkpoint::items_of(s), order, locs, before.catalog@, c);
    lemma_new_entries(s, before.catalog@, c, order, locs, before.images(), table, id);
    lemma_runs_after(before, after, c, meta, superseded, true, key);
    let to = primary::entries_of(paged::values_of(c.run.rows(), key))->Ok_0;
    let from = primary::resident(f.delta@, key);
    let active = primary::resident(before.index.delta@, key);
    match primary::run_entries(before.index.runs@, key) {
        Err(_) => {
            lemma_row_same(before, after, table, id, max);
        },
        Ok(runs) => {
            let empty = Seq::<VersionView>::empty();
            let common = runs + active;
            let old_list = runs + from + active;
            let new_list = runs + to + empty + active;
            assert(new_list =~= runs + to + active);
            assert(before.index.entries(key) == Ok::<Seq<VersionView>, Seq<char>>(old_list));
            assert(after.index.entries(key) == Ok::<Seq<VersionView>, Seq<char>>(new_list));
            lemma_concat_contains(runs, from);
            lemma_concat_contains(runs + from, active);
            lemma_concat_contains(runs, to);
            lemma_concat_contains(runs + to, active);
            lemma_concat_contains(runs, active);
            assert forall|v: VersionView| #[trigger] common.contains(v) implies segment::payload_of(before.images(), v.kind)
                == segment::payload_of(after.images(), v.kind) by {
                assert((runs + from).contains(v) || active.contains(v));
                assert(old_list.contains(v));
                assert(has_version_at(before, key, v));
                lemma_payload_kept(before.images(), SegmentView { id: c.segment, image: c.image@ }, v);
            }
            assert forall|v: VersionView| #[trigger] old_list.contains(v) <==> common.contains(v) || from.contains(v) by {
                assert((runs + from).contains(v) <==> runs.contains(v) || from.contains(v));
            }
            assert forall|v: VersionView| #[trigger] new_list.contains(v) <==> common.contains(v) || to.contains(v) by {
                assert((runs + to).contains(v) <==> runs.contains(v) || to.contains(v));
            }
            assert(replaced(old_list, new_list, common, from, to, before.images(), after.images(), t.epoch));
            lemma_replaced(old_list, new_list, common, from, to, before.images(), after.images(), max, t.epoch);
            lemma_held(before, after, table, id, common, from, to, t.epoch);
            lemma_row_same(before, after, table, id, max);
        },
    }
}

/// Freezing changes nothing: every record has the versions that it had.
pub proof fn lemma_freeze_keeps_versions(before: &State, after: &State, key: Seq<u8>)
    requires
        before.index.frozen is None,
        after.index.runs == before.index.runs,
        after.index.frozen matches Some(f) && f.delta == before.index.delta,
        after.index.delta@ == Map::<Seq<u8>, Seq<VersionView>>::empty(),
    ensures
        after.index.entries(key) == before.index.entries(key),
{
    match primary::run_entries(before.index.runs@, key) {
        Ok(s) => {
            let d = primary::resident(before.index.delta@, key);
            let e = Seq::<VersionView>::empty();
            assert(s + d + e =~= s + e + d);
        },
        Err(_) => {},
    }
}

/// Thawing changes nothing that a reader of any version sees.
pub proof fn lemma_thaw_keeps_versions(before: &State, after: &State, table: Seq<char>, id: Seq<u8>, max: u64)
    requires
        before.versions_ok(),
        after.catalog == before.catalog,
        after.index.runs == before.index.runs,
        after.index.frozen is None,
        checkpoint::merged_back(before.index.delta@, before.index.frozen_map(), after.index.delta@),
    ensures
        after.visible(table, id, max) == before.visible(table, id, max),
{
    let key = version::key_of(encode_utf8(table), id);
    assert(checkpoint::merged_at(before.index.delta@, before.index.frozen_map(), after.index.delta@, key));
    match primary::run_entries(before.index.runs@, key) {
        Err(_) => {},
        Ok(runs) => {
            let from = primary::resident(before.index.frozen_map(), key);
            let active = primary::resident(before.index.delta@, key);
            let now = primary::resident(after.index.delta@, key);
            let empty = Seq::<VersionView>::empty();
            let s = runs + from + active;
            let t = runs + empty + now;
            assert(before.index.entries(key) == Ok::<Seq<VersionView>, Seq<char>>(s));
            assert(after.index.entries(key) == Ok::<Seq<VersionView>, Seq<char>>(t));
            assert(t =~= runs + now);
            lemma_concat_contains(runs, from);
            lemma_concat_contains(runs + from, active);
            lemma_concat_contains(runs, now);
            assert forall|v: VersionView| s.contains(v) <==> t.contains(v) by {
                assert((runs + from).contains(v) <==> runs.contains(v) || from.contains(v));
                if before.index.frozen_map().contains_key(key) {
                    let joined = active + before.index.frozen_map()[key];
                    lemma_concat_contains(active, before.index.frozen_map()[key]);
                    if now.contains(v) {
                        let k = now.index_of(v);
                        assert(joined.contains(now[k]));
                    }
                    if from.contains(v) || active.contains(v) {
                        assert(joined.contains(v));
                        let i = joined.index_of(v);
                        assert(primary::has_version(now, joined[i].version));
                        let k = choose|k: int| 0 <= k < now.len() && (#[trigger] now[k]).version == v.version;
                        assert(joined.contains(now[k]));
                        assert(s.contains(now[k])) by {
                            assert(active.contains(now[k]) || from.contains(now[k]));
                            assert((runs + from).contains(now[k]) <==> runs.contains(now[k]) || from.contains(now[k]));
                        }
                        assert(s.contains(v));
                        let a = s.index_of(v);
                        let b = s.index_of(now[k]);
                        assert(s[a] == s[b]);
                    }
                } else {
                    assert(from =~= empty);
                }
            }
            primary::lemma_newest_same(s, t, max);
        },
    }
}

} // verus!
