//! The files and the state change together: whatever is published, the files
//! hold what is committed.

use crate::bytes;
use crate::checkpoint::{self, Checkpoint};
use crate::checkpoint_laws::{self, same_content};
use crate::disk::{self, Disk};
use crate::levels;
use crate::paged;
use crate::pairs;
use crate::primary::{self, RunMetaView};
use crate::recover::{self, FoundView};
use crate::schema::{self, TableView};
use crate::segment::{self, SegmentView};
use crate::segwrite::{self, ItemView};
use crate::state::State;
use crate::version::{self, KindView, VersionView};
use crate::wal::WalView;
use vstd::prelude::*;
use vstd::utf8::*;

verus! {

// ---- A new segment ----------------------------------------------------------

/// Every item has the key of its table and its id, and fits an entry.
pub open spec fn items_named(items: Seq<ItemView>) -> bool {
    forall|k: int|
        0 <= k < items.len() ==> segwrite::item_fits(#[trigger] items[k]) && items[k].key == version::key_of(
            encode_utf8(items[k].table),
            encode_utf8(items[k].id),
        )
}

/// No version of a record is there twice.
pub open spec fn items_sole(items: Seq<ItemView>) -> bool {
    forall|i: int, j: int|
        0 <= i < items.len() && 0 <= j < items.len() && (#[trigger] items[i]).key == (#[trigger] items[j]).key && items[i].version
            == items[j].version ==> i == j
}

/// An order reaches every item once.
pub open spec fn is_order(n: int, order: Seq<usize>) -> bool {
    &&& order.len() == n <= usize::MAX
    &&& forall|q: int| 0 <= q < order.len() ==> (#[trigger] order[q]) < n
    &&& forall|a: int, b: int| 0 <= a < order.len() && 0 <= b < order.len() && #[trigger] order[a] == #[trigger] order[b] ==> a == b
    &&& forall|i: int| 0 <= i < n ==> #[trigger] order.contains(i as usize)
}

/// An order of all indexes reaches each of them once.
pub proof fn lemma_order_is(n: int, order: Seq<usize>)
    requires
        0 <= n <= usize::MAX,
        order.to_multiset() == segwrite::span(0, n).to_multiset(),
    ensures
        is_order(n, order),
{
    broadcast use vstd::seq_lib::group_to_multiset_ensures;

    let all = segwrite::span(0, n);
    assert(order.len() == order.to_multiset().len());
    assert(all.len() == all.to_multiset().len());
    assert forall|q: int| 0 <= q < order.len() implies (#[trigger] order[q]) < n by {
        assert(order.contains(order[q]));
        assert(order.to_multiset().count(order[q]) > 0);
        assert(all.to_multiset().count(order[q]) > 0);
        assert(all.contains(order[q]));
        let i = all.index_of(order[q]);
    }
    assert forall|i: int| 0 <= i < n implies #[trigger] order.contains(i as usize) by {
        segwrite::lemma_order_reaches(n, order, i);
    }
    assert(all.no_duplicates());
    all.lemma_multiset_has_no_duplicates();
    order.lemma_multiset_has_no_duplicates_conv();
}

/// The versions of the new entries.
pub open spec fn new_entry(items: Seq<ItemView>, order: Seq<usize>, segment: u32, q: int) -> FoundView {
    recover::found_view(segment, segwrite::entry_for(items[order[q] as int], segwrite::entry_start(items, order, q)))
}

pub open spec fn new_stores(items: Seq<ItemView>, order: Seq<usize>, segment: u32, key: Seq<u8>, w: VersionView) -> bool {
    exists|q: int| 0 <= q < order.len() && #[trigger] new_entry(items, order, segment, q) == (FoundView { key, entry: w })
}

/// A store with one more segment.
pub open spec fn grown(d: Disk, d2: Disk, items: Seq<ItemView>, order: Seq<usize>, segment: u32, image: Seq<u8>) -> bool {
    &&& d2.segments == d.segments.push(SegmentView { id: segment, image })
    &&& image == segwrite::image_bytes(items, order, order.len() as int)
    &&& image.len() <= usize::MAX
    &&& is_order(items.len() as int, order)
    &&& items_named(items)
    &&& items_sole(items)
    &&& d.version <= d2.version
    &&& forall|k: int| 0 <= k < items.len() ==> d.version < (#[trigger] items[k]).version <= d2.version
    &&& forall|k: int| 0 <= k < d.segments.len() ==> (#[trigger] d.segments[k]).id < segment
    &&& disk::ascending(d2.log)
    &&& forall|i: int| 0 <= i < d2.log.len() ==> disk::changes_once(#[trigger] d2.log[i])
}

proof fn lemma_new_list(d: Disk, d2: Disk, items: Seq<ItemView>, order: Seq<usize>, segment: u32, image: Seq<u8>)
    requires
        grown(d, d2, items, order, segment, image),
    ensures
        ({
            let n = d.segments.len() as int;
            &&& d2.segments[n] == SegmentView { id: segment, image }
            &&& disk::segment_whole(d2.segments[n])
            &&& d2.list(n).len() == order.len()
            &&& forall|q: int| 0 <= q < order.len() ==> #[trigger] d2.at(n, q) == new_entry(items, order, segment, q)
            &&& forall|q: int|
                0 <= q < order.len() ==> #[trigger] d2.list(n)[q] == segwrite::entry_for(
                    items[order[q] as int],
                    segwrite::entry_start(items, order, q),
                )
            &&& forall|k: int| 0 <= k < n ==> #[trigger] d2.segments[k] == d.segments[k]
            &&& forall|k: int| 0 <= k < n ==> #[trigger] d2.list(k) == d.list(k)
        }),
{
    let n = d.segments.len() as int;
    assert forall|k: int| 0 <= k < order.len() implies segwrite::item_fits(items[#[trigger] order[k] as int]) by {}
    segwrite::lemma_image_scans(items, order, segment);
    assert forall|q: int| 0 <= q < order.len() implies #[trigger] d2.at(n, q) == new_entry(items, order, segment, q) by {
        assert(d2.list(n)[q] == segwrite::entry_for(items[order[q] as int], segwrite::entry_start(items, order, q)));
    }
}

proof fn lemma_new_key(items: Seq<ItemView>, order: Seq<usize>, segment: u32, q: int)
    requires
        is_order(items.len() as int, order),
        items_named(items),
        0 <= q < order.len(),
    ensures
        new_entry(items, order, segment, q).key == items[order[q] as int].key,
        new_entry(items, order, segment, q).entry.version == items[order[q] as int].version,
{
    assert(order[q] < items.len());
    assert(segwrite::item_fits(items[order[q] as int]));
}

/// A store with one more segment is sound, and holds what it held and the items.
pub proof fn lemma_grown(d: Disk, d2: Disk, items: Seq<ItemView>, order: Seq<usize>, segment: u32, image: Seq<u8>)
    requires
        d.sound(),
        grown(d, d2, items, order, segment, image),
    ensures
        d2.sound(),
        forall|key: Seq<u8>, w: VersionView| #[trigger] d2.stores(key, w) <==> d.stores(key, w) || new_stores(items, order, segment, key, w),
{
    let n = d.segments.len() as int;
    lemma_new_list(d, d2, items, order, segment, image);
    assert forall|k: int, a: int| #[trigger] d2.place(k, a) && k < n implies d.place(k, a) && d2.at(k, a) == d.at(k, a) by {
        assert(d2.list(k) == d.list(k));
        assert(d2.segments[k] == d.segments[k]);
    }
    assert forall|k: int, a: int| #[trigger] d.place(k, a) implies d2.place(k, a) && d2.at(k, a) == d.at(k, a) by {
        assert(d2.list(k) == d.list(k));
        assert(d2.segments[k] == d.segments[k]);
    }
    assert(d2.whole()) by {
        assert forall|k: int| 0 <= k < d2.segments.len() implies disk::segment_whole(#[trigger] d2.segments[k]) by {
            if k < n {
                assert(disk::segment_whole(d.segments[k]));
            }
        }
    }
    assert(d2.named()) by {
        reveal(Disk::named);
        assert forall|k: int, a: int| #[trigger] d2.place(k, a) implies valid_utf8(d2.list(k)[a].table) && valid_utf8(
            d2.list(k)[a].id,
        ) by {
            if k < n {
                assert(d.place(k, a));
                assert(d2.list(k) == d.list(k));
            } else {
                let m = items[order[a] as int];
                encode_utf8_valid_utf8(m.table);
                encode_utf8_valid_utf8(m.id);
                assert(d2.list(n)[a] == segwrite::entry_for(m, segwrite::entry_start(items, order, a)));
            }
        }
    }
    assert(d2.ids_distinct()) by {
        assert forall|k: int, l: int| 0 <= k < d2.segments.len() && 0 <= l < d2.segments.len() && (#[trigger] d2.segments[k]).id == (
        #[trigger] d2.segments[l]).id implies k == l by {
            if k < n {
                assert(d2.segments[k] == d.segments[k]);
                assert(d.segments[k].id < segment);
            }
            if l < n {
                assert(d2.segments[l] == d.segments[l]);
                assert(d.segments[l].id < segment);
            }
        }
    }
    assert forall|k: int, a: int| #[trigger] d2.place(k, a) implies d2.at(k, a).entry.version <= d2.version && (k < n ==> d2.at(
        k,
        a,
    ).entry.version <= d.version) && (k == n ==> d2.at(k, a).entry.version > d.version) by {
        if k < n {
            assert(d.place(k, a));
        } else {
            assert(d2.at(n, a) == new_entry(items, order, segment, a));
            lemma_new_key(items, order, segment, a);
            assert(items[order[a] as int].version <= d2.version);
        }
    }
    assert(d2.sole()) by {
        reveal(Disk::sole);
        assert forall|k: int, a: int, l: int, b: int| #[trigger] d2.place(k, a) && #[trigger] d2.place(l, b) && d2.at(k, a).key == d2.at(
            l,
            b,
        ).key && d2.at(k, a).entry.version == d2.at(l, b).entry.version implies k == l && a == b by {
            if k < n && l < n {
                assert(d.place(k, a) && d.place(l, b));
            } else {
                assert(k == n && l == n);
                assert(d2.at(n, a) == new_entry(items, order, segment, a));
                assert(d2.at(n, b) == new_entry(items, order, segment, b));
                lemma_new_key(items, order, segment, a);
                lemma_new_key(items, order, segment, b);
                assert(order[a] < items.len() && order[b] < items.len());
                assert(items[order[a] as int].key == items[order[b] as int].key);
                assert(order[a] == order[b]);
            }
        }
    }
    assert forall|key: Seq<u8>, w: VersionView| #[trigger] d2.stores(key, w) <==> d.stores(key, w) || new_stores(
        items,
        order,
        segment,
        key,
        w,
    ) by {
        let f = FoundView { key, entry: w };
        if d2.stores(key, w) {
            let (k, a) = choose|k: int, a: int| #[trigger] d2.place(k, a) && d2.at(k, a) == f;
            if k < n {
                assert(d.place(k, a));
            } else {
                assert(d2.at(n, a) == new_entry(items, order, segment, a));
            }
        }
        if d.stores(key, w) {
            let (k, a) = choose|k: int, a: int| #[trigger] d.place(k, a) && d.at(k, a) == f;
            assert(d2.place(k, a));
        }
        if new_stores(items, order, segment, key, w) {
            let q = choose|q: int| 0 <= q < order.len() && #[trigger] new_entry(items, order, segment, q) == f;
            assert(d2.at(n, q) == f);
            assert(d2.place(n, q));
        }
    }
}

// ---- The run of a new segment -----------------------------------------------

/// The version that the run has of an item.
pub open spec fn run_item(items: Seq<ItemView>, locs: Seq<u64>, segment: u32, tables: Seq<TableView>, key: Seq<u8>, v: VersionView, k: int) -> bool {
    &&& 0 <= k < items.len()
    &&& items[k].key == key
    &&& items[k].version > segwrite::epoch_of(tables, items[k].table)
    &&& v == segwrite::placed(items[k], segment, locs[k])
}

/// A run that was made of items has under a key those of the record.
pub proof fn lemma_new_run(items: Seq<ItemView>, locs: Seq<u64>, segment: u32, tables: Seq<TableView>, rows: Seq<(Seq<u8>, Seq<u8>)>, key: Seq<u8>)
    requires
        rows.to_multiset() == segwrite::run_rows(items, locs, segment, tables, items.len() as int).to_multiset(),
    ensures
        primary::entries_of(paged::values_of(rows, key)) matches Ok(list) && forall|v: VersionView|
            #[trigger] list.contains(v) <==> exists|k: int| #[trigger] run_item(items, locs, segment, tables, key, v, k),
{
    let n = items.len() as int;
    let made = segwrite::run_rows(items, locs, segment, tables, n);
    let values = paged::values_of(rows, key);
    levels::lemma_entries_of(values);
    assert forall|value: Seq<u8>| #[trigger] values.contains(value) implies exists|k: int|
        #[trigger] segwrite::is_row_of(items, locs, segment, tables, k, (key, value)) by {
        paged::lemma_values_of(rows, key, value);
        paged::lemma_sorted_rows(rows, made, (key, value));
        segwrite::lemma_run_rows(items, locs, segment, tables, n, (key, value));
        let k = choose|k: int| k < n && #[trigger] segwrite::is_row_of(items, locs, segment, tables, k, (key, value));
        assert(segwrite::is_row_of(items, locs, segment, tables, k, (key, value)));
    }
    if primary::entries_of(values) is Err {
        let i = choose|i: int| 0 <= i < values.len() && version::entry_of(#[trigger] values[i]) is Err;
        assert(values.contains(values[i]));
        let k = choose|k: int| #[trigger] segwrite::is_row_of(items, locs, segment, tables, k, (key, values[i]));
        version::lemma_entry_round_trip(segwrite::placed(items[k], segment, locs[k]));
    }
    let list = primary::entries_of(values)->Ok_0;
    assert forall|v: VersionView| #[trigger] list.contains(v) <==> exists|k: int|
        #[trigger] run_item(items, locs, segment, tables, key, v, k) by {
        if list.contains(v) {
            let p = list.index_of(v);
            assert(version::entry_of(values[p]) == Ok::<VersionView, Seq<char>>(list[p]));
            assert(values.contains(values[p]));
            let k = choose|k: int| #[trigger] segwrite::is_row_of(items, locs, segment, tables, k, (key, values[p]));
            version::lemma_entry_round_trip(segwrite::placed(items[k], segment, locs[k]));
            assert(run_item(items, locs, segment, tables, key, v, k));
        }
        if exists|k: int| #[trigger] run_item(items, locs, segment, tables, key, v, k) {
            let k = choose|k: int| #[trigger] run_item(items, locs, segment, tables, key, v, k);
            let value = version::entry_bytes(v);
            assert(segwrite::is_row_of(items, locs, segment, tables, k, (key, value)));
            segwrite::lemma_run_rows(items, locs, segment, tables, n, (key, value));
            paged::lemma_sorted_rows(rows, made, (key, value));
            paged::lemma_values_of(rows, key, value);
            assert(values.contains(value));
            let p = values.index_of(value);
            version::lemma_entry_round_trip(v);
            assert(version::entry_of(values[p]) == Ok::<VersionView, Seq<char>>(list[p]));
        }
    }
}

proof fn lemma_image_named(segments: Seq<SegmentView>, id: u32)
    requires
        segment::image_of(segments, id) is Some,
    ensures
        exists|k: int| 0 <= k < segments.len() && (#[trigger] segments[k]).id == id,
    decreases segments.len(),
{
    if segments.last().id == id {
        assert(segments[segments.len() - 1].id == id);
    } else {
        lemma_image_named(segments.drop_last(), id);
        let k = choose|k: int| 0 <= k < segments.drop_last().len() && (#[trigger] segments.drop_last()[k]).id == id;
        assert(segments[k].id == id);
    }
}

/// What can be read stays readable beside a new segment.
proof fn lemma_payload_stays(segments: Seq<SegmentView>, more: SegmentView, kind: KindView)
    requires
        forall|k: int| 0 <= k < segments.len() ==> (#[trigger] segments[k]).id < more.id,
        segment::payload_of(segments, kind) is Ok,
    ensures
        segment::payload_of(segments.push(more), kind) == segment::payload_of(segments, kind),
{
    assert(segments.push(more).drop_last() =~= segments);
    if let KindView::SegPut { segment, .. } = kind {
        lemma_image_named(segments, segment);
    }
}

/// An entry stands in the image where a scan finds it.
proof fn lemma_entry_stands(items: Seq<ItemView>, order: Seq<usize>, segment: u32, image: Seq<u8>, q: int)
    requires
        image == segwrite::image_bytes(items, order, order.len() as int),
        is_order(items.len() as int, order),
        items_named(items),
        0 <= q < order.len(),
    ensures
        disk::entry_within(image, segwrite::entry_for(items[order[q] as int], segwrite::entry_start(items, order, q))),
{
    assert forall|k: int| 0 <= k < order.len() implies segwrite::item_fits(items[#[trigger] order[k] as int]) by {
        assert(order[k] < items.len());
    }
    segwrite::lemma_image_scans(items, order, segment);
    disk::lemma_entries_within(image, 0, segment);
    let all = segment::entries_from(image, 0, segment).0;
    assert(all[q] == segwrite::entry_for(items[order[q] as int], segwrite::entry_start(items, order, q)));
    assert(disk::entry_within(image, all[q]));
}

/// A payload that stands in an image at two places reads the same from both.
proof fn lemma_same_payload(segments: Seq<SegmentView>, m: ItemView, segment: u32, image: Seq<u8>, at: u64, start: int)
    requires
        segments.len() > 0,
        segments.last() == (SegmentView { id: segment, image }),
        image.len() <= usize::MAX,
        segwrite::item_fits(m),
        segwrite::located_at(m, at, image),
        disk::entry_within(image, segwrite::entry_for(m, start)),
    ensures
        disk::same_place(
            segments,
            segwrite::placed(m, segment, at),
            recover::found_view(segment, segwrite::entry_for(m, start)).entry,
        ),
{
    assert(segment::image_of(segments, segment) == Some(image));
}

/// The run's version of an item, and the one that a scan of the segment finds,
/// read the same.
proof fn lemma_same_item(segments: Seq<SegmentView>, items: Seq<ItemView>, order: Seq<usize>, locs: Seq<u64>, segment: u32, image: Seq<u8>, q: int)
    requires
        segments.len() > 0,
        segments.last() == (SegmentView { id: segment, image }),
        image == segwrite::image_bytes(items, order, order.len() as int),
        image.len() <= usize::MAX,
        is_order(items.len() as int, order),
        items_named(items),
        segwrite::located(items, locs, image),
        0 <= q < order.len(),
    ensures
        disk::same_place(
            segments,
            segwrite::placed(items[order[q] as int], segment, locs[order[q] as int]),
            new_entry(items, order, segment, q).entry,
        ),
{
    let k = order[q] as int;
    assert(order[q] < items.len());
    assert(segwrite::item_fits(items[k]));
    assert(segwrite::located_at(items[k], locs[k], image));
    lemma_entry_stands(items, order, segment, image, q);
    lemma_same_payload(segments, items[k], segment, image, locs[k], segwrite::entry_start(items, order, q));
}

/// What was read alike is read alike beside a new segment.
proof fn lemma_content_stays(d: Disk, more: SegmentView, key: Seq<u8>, v: VersionView, w: VersionView)
    requires
        d.sound(),
        forall|k: int| 0 <= k < d.segments.len() ==> (#[trigger] d.segments[k]).id < more.id,
        d.stores(key, w),
        disk::same_place(d.segments, v, w),
    ensures
        disk::same_place(d.segments.push(more), v, w),
{
    assert(disk::same_place(d.segments, w, w));
    disk::lemma_backed_reads(d, key, w);
    lemma_payload_stays(d.segments, more, v.kind);
    lemma_payload_stays(d.segments, more, w.kind);
}

/// A version of the new run is stored.
proof fn lemma_run_item_stored(
    segments: Seq<SegmentView>,
    items: Seq<ItemView>,
    order: Seq<usize>,
    locs: Seq<u64>,
    segment: u32,
    image: Seq<u8>,
    tables: Seq<TableView>,
    key: Seq<u8>,
    v: VersionView,
    k: int,
) -> (w: VersionView)
    requires
        segments.len() > 0,
        segments.last() == (SegmentView { id: segment, image }),
        image == segwrite::image_bytes(items, order, order.len() as int),
        image.len() <= usize::MAX,
        is_order(items.len() as int, order),
        items_named(items),
        segwrite::located(items, locs, image),
        run_item(items, locs, segment, tables, key, v, k),
    ensures
        new_stores(items, order, segment, key, w),
        disk::same_place(segments, v, w),
{
    assert(order.contains(k as usize));
    let q = order.index_of(k as usize);
    let w = new_entry(items, order, segment, q).entry;
    lemma_new_key(items, order, segment, q);
    lemma_same_item(segments, items, order, locs, segment, image, q);
    assert(new_entry(items, order, segment, q) == (FoundView { key, entry: w }));
    w
}

/// A stored version that its table counts is one of the new run.
proof fn lemma_stored_run_item(
    segments: Seq<SegmentView>,
    items: Seq<ItemView>,
    order: Seq<usize>,
    locs: Seq<u64>,
    segment: u32,
    image: Seq<u8>,
    tables: Seq<TableView>,
    table: Seq<char>,
    id: Seq<char>,
    w: VersionView,
) -> (v: VersionView)
    requires
        segments.len() > 0,
        segments.last() == (SegmentView { id: segment, image }),
        image == segwrite::image_bytes(items, order, order.len() as int),
        image.len() <= usize::MAX,
        is_order(items.len() as int, order),
        items_named(items),
        segwrite::located(items, locs, image),
        encode_utf8(table).len() <= u32::MAX,
        schema::table_of(tables, table) matches Some(t) && w.version > t.epoch,
        new_stores(items, order, segment, version::key_of(encode_utf8(table), encode_utf8(id)), w),
    ensures
        exists|k: int|
            #[trigger] run_item(items, locs, segment, tables, version::key_of(encode_utf8(table), encode_utf8(id)), v, k),
        disk::same_place(segments, v, w),
{
    let key = version::key_of(encode_utf8(table), encode_utf8(id));
    let q = choose|q: int| 0 <= q < order.len() && #[trigger] new_entry(items, order, segment, q) == (FoundView { key, entry: w });
    let k = order[q] as int;
    assert(order[q] < items.len());
    lemma_new_key(items, order, segment, q);
    let m = items[k];
    assert(segwrite::item_fits(m));
    version::lemma_key_injective(encode_utf8(m.table), encode_utf8(m.id), encode_utf8(table), encode_utf8(id));
    bytes::lemma_utf8_injective(m.table, table);
    let v = segwrite::placed(m, segment, locs[k]);
    assert(run_item(items, locs, segment, tables, key, v, k));
    lemma_same_item(segments, items, order, locs, segment, image, q);
    v
}

/// The runs with the new one list what the grown store holds.
pub proof fn lemma_grown_agrees(
    d: Disk,
    d2: Disk,
    items: Seq<ItemView>,
    order: Seq<usize>,
    locs: Seq<u64>,
    segment: u32,
    image: Seq<u8>,
    tables: Seq<TableView>,
    table: Seq<char>,
    id: Seq<char>,
    before: Seq<VersionView>,
    list: Seq<VersionView>,
)
    requires
        d.sound(),
        grown(d, d2, items, order, segment, image),
        segwrite::located(items, locs, image),
        schema::table_of(tables, table) is Some,
        encode_utf8(table).len() <= u32::MAX,
        disk::agrees(
            before,
            d,
            version::key_of(encode_utf8(table), encode_utf8(id)),
            schema::table_of(tables, table)->0.epoch,
        ),
        forall|v: VersionView|
            #[trigger] list.contains(v) <==> exists|k: int|
                #[trigger] run_item(
                    items,
                    locs,
                    segment,
                    tables,
                    version::key_of(encode_utf8(table), encode_utf8(id)),
                    v,
                    k,
                ),
    ensures
        disk::agrees(
            before + list,
            d2,
            version::key_of(encode_utf8(table), encode_utf8(id)),
            schema::table_of(tables, table)->0.epoch,
        ),
{
    let key = version::key_of(encode_utf8(table), encode_utf8(id));
    let epoch = schema::table_of(tables, table)->0.epoch;
    let all = before + list;
    let more = SegmentView { id: segment, image };
    lemma_grown(d, d2, items, order, segment, image);
    checkpoint_laws::lemma_concat_contains(before, list);
    assert(d2.segments.last() == more);
    assert forall|v: VersionView| #[trigger] all.contains(v) && v.version > epoch implies exists|w: VersionView|
        d2.stores(key, w) && #[trigger] disk::same_place(d2.segments, v, w) by {
        if before.contains(v) {
            let w = choose|w: VersionView| d.stores(key, w) && #[trigger] disk::same_place(d.segments, v, w);
            lemma_content_stays(d, more, key, v, w);
            assert(d2.stores(key, w) && disk::same_place(d2.segments, v, w));
        } else {
            let k = choose|k: int| #[trigger] run_item(items, locs, segment, tables, key, v, k);
            let w = lemma_run_item_stored(d2.segments, items, order, locs, segment, image, tables, key, v, k);
            assert(d2.stores(key, w) && disk::same_place(d2.segments, v, w));
        }
    }
    assert forall|w: VersionView| #[trigger] d2.stores(key, w) && w.version > epoch implies exists|v: VersionView|
        all.contains(v) && #[trigger] disk::same_place(d2.segments, v, w) by {
        if d.stores(key, w) {
            let v = choose|v: VersionView| before.contains(v) && #[trigger] disk::same_place(d.segments, v, w);
            lemma_content_stays(d, more, key, v, w);
            assert(all.contains(v) && disk::same_place(d2.segments, v, w));
        } else {
            let v = lemma_stored_run_item(d2.segments, items, order, locs, segment, image, tables, table, id, w);
            assert(list.contains(v));
            assert(all.contains(v) && disk::same_place(d2.segments, v, w));
        }
    }
}

// ---- The items of resident versions -----------------------------------------

/// A key names the table and the id that it is made of.
proof fn lemma_key_of_parts(key: Seq<u8>)
    requires
        version::key_parts(key) is Ok,
    ensures
        ({
            let (t, i) = version::key_parts(key)->Ok_0;
            &&& key == version::key_of(t, i)
            &&& encode_utf8(decode_utf8(t)) == t
            &&& encode_utf8(decode_utf8(i)) == i
        }),
{
    let (t, i) = version::key_parts(key)->Ok_0;
    let head = key.subrange(0, 4);
    bytes::lemma_be_of_value(head);
    assert(version::key_of(t, i) =~= head + t + i);
    assert(key =~= head + t + i);
    decode_utf8_encode_utf8(t);
    decode_utf8_encode_utf8(i);
}

/// An item of one of the first `n` versions.
spec fn item_from(key: Seq<u8>, vs: Seq<VersionView>, n: int, m: ItemView) -> bool {
    exists|q: int| 0 <= q < n && m == #[trigger] checkpoint::item_for(key, vs[q])
}

proof fn lemma_version_items_sole(key: Seq<u8>, vs: Seq<VersionView>, n: int)
    requires
        0 <= n <= vs.len(),
        disk::once(vs),
    ensures
        items_sole(checkpoint::version_items(key, vs, n)),
        forall|k: int|
            0 <= k < checkpoint::version_items(key, vs, n).len() ==> item_from(
                key,
                vs,
                n,
                #[trigger] checkpoint::version_items(key, vs, n)[k],
            ),
    decreases n,
{
    if n > 0 {
        lemma_version_items_sole(key, vs, n - 1);
        let rest = checkpoint::version_items(key, vs, n - 1);
        let s = checkpoint::version_items(key, vs, n);
        let last = checkpoint::item_for(key, vs[n - 1]);
        assert forall|k: int| 0 <= k < s.len() implies item_from(key, vs, n, #[trigger] s[k]) && (k < rest.len() ==> s[k].version
            != vs[n - 1].version) by {
            if k < rest.len() {
                assert(s[k] == rest[k]);
                assert(item_from(key, vs, n - 1, rest[k]));
                let q = choose|q: int| 0 <= q < n - 1 && rest[k] == #[trigger] checkpoint::item_for(key, vs[q]);
                assert(0 <= q < n && s[k] == checkpoint::item_for(key, vs[q]));
                if vs[q].version == vs[n - 1].version {
                    assert(q == n - 1);
                }
            } else {
                assert(s[k] == last);
            }
        }
        assert forall|i: int, j: int| 0 <= i < s.len() && 0 <= j < s.len() && (#[trigger] s[i]).key == (#[trigger] s[j]).key && s[i].version
            == s[j].version implies i == j by {
            if i < rest.len() && j < rest.len() {
                assert(rest[i] == s[i] && rest[j] == s[j]);
            }
        }
    }
}

/// An item has the key of one of the first `n` records.
spec fn key_from(s: Seq<(Seq<u8>, Seq<VersionView>)>, n: int, m: ItemView) -> bool {
    exists|p: int| 0 <= p < n && m.key == #[trigger] s[p].0
}

proof fn lemma_delta_items_sole(s: Seq<(Seq<u8>, Seq<VersionView>)>, n: int)
    requires
        0 <= n <= s.len(),
        pairs::sorted(s),
        forall|p: int| 0 <= p < s.len() ==> disk::once(#[trigger] s[p].1),
    ensures
        items_sole(checkpoint::delta_items(s, n)),
        forall|k: int| 0 <= k < checkpoint::delta_items(s, n).len() ==> key_from(s, n, #[trigger] checkpoint::delta_items(s, n)[k]),
    decreases n,
{
    if n > 0 {
        lemma_delta_items_sole(s, n - 1);
        let key = s[n - 1].0;
        let vs = s[n - 1].1;
        assert(disk::once(s[n - 1].1));
        lemma_version_items_sole(key, vs, vs.len() as int);
        let rest = checkpoint::delta_items(s, n - 1);
        let more = checkpoint::version_items(key, vs, vs.len() as int);
        let all = checkpoint::delta_items(s, n);
        assert(all == rest + more);
        assert forall|k: int| 0 <= k < all.len() implies key_from(s, n, #[trigger] all[k]) && (k < rest.len() ==> all[k].key != key) && (k
            >= rest.len() ==> all[k].key == key) by {
            if k < rest.len() {
                assert(all[k] == rest[k]);
                assert(key_from(s, n - 1, rest[k]));
                let p = choose|p: int| 0 <= p < n - 1 && rest[k].key == #[trigger] s[p].0;
                assert(0 <= p < n && all[k].key == s[p].0);
                if s[p].0 == s[n - 1].0 {
                    pairs::lemma_key_unique(s, p, n - 1);
                }
            } else {
                assert(all[k] == more[k - rest.len()]);
                assert(item_from(key, vs, vs.len() as int, more[k - rest.len()]));
                assert(all[k].key == s[n - 1].0);
            }
        }
        assert forall|i: int, j: int| 0 <= i < all.len() && 0 <= j < all.len() && (#[trigger] all[i]).key == (#[trigger] all[j]).key
            && all[i].version == all[j].version implies i == j by {
            if i < rest.len() {
                assert(j < rest.len());
                assert(rest[i] == all[i] && rest[j] == all[j]);
            } else {
                assert(more[i - rest.len()] == all[i] && more[j - rest.len()] == all[j]);
            }
        }
    }
}

proof fn lemma_rising_once(s: Seq<VersionView>)
    requires
        disk::rising(s),
    ensures
        disk::once(s),
{
    assert forall|i: int, j: int| 0 <= i < s.len() && 0 <= j < s.len() && (#[trigger] s[i]).version == (#[trigger] s[j]).version implies i
        == j by {
        if i < j {
            assert(s[i].version < s[j].version);
        }
        if j < i {
            assert(s[j].version < s[i].version);
        }
    }
}

/// Resident versions that the log holds between two versions make items that a
/// segment can take.
proof fn lemma_items_ready(s: Seq<(Seq<u8>, Seq<VersionView>)>, d: Disk, lo: u64, hi: u64, tables: Seq<TableView>)
    requires
        pairs::sorted(s),
        checkpoint::keys_named(s),
        disk::delta_logged(pairs::to_map(s), d, lo, hi, tables),
        forall|k: int| 0 <= k < checkpoint::items_of(s).len() ==> segwrite::item_fits(#[trigger] checkpoint::items_of(s)[k]),
    ensures
        items_named(checkpoint::items_of(s)),
        items_sole(checkpoint::items_of(s)),
        forall|k: int| 0 <= k < checkpoint::items_of(s).len() ==> lo < (#[trigger] checkpoint::items_of(s)[k]).version <= hi,
{
    let items = checkpoint::items_of(s);
    let delta = pairs::to_map(s);
    assert forall|p: int| 0 <= p < s.len() implies disk::once(#[trigger] s[p].1) by {
        pairs::lemma_to_map_at(s, p);
        assert(primary::resident(delta, s[p].0) == s[p].1);
        lemma_rising_once(primary::resident(delta, s[p].0));
    }
    lemma_delta_items_sole(s, s.len() as int);
    checkpoint::lemma_delta_items(s, s.len() as int);
    assert forall|k: int| 0 <= k < items.len() implies lo < (#[trigger] items[k]).version <= hi && items[k].key == version::key_of(
        encode_utf8(items[k].table),
        encode_utf8(items[k].id),
    ) by {
        assert(checkpoint::has_source(s, s.len() as int, items[k]));
        let (p, q) = choose|p: int, q: int| p < s.len() && #[trigger] checkpoint::came_from(s, p, q, items[k]);
        pairs::lemma_to_map_at(s, p);
        let v = s[p].1[q];
        assert(primary::resident(delta, s[p].0).contains(v));
        assert(d.logs(lo, hi, s[p].0, v));
        assert(version::key_parts(s[p].0) is Ok);
        lemma_key_of_parts(s[p].0);
    }
}

// ---- Checkpoints ------------------------------------------------------------

/// A log that a manifest of a version may stand beside: in order, and not past
/// what is committed.
pub open spec fn log_fits(log: Seq<WalView>, version: u64, committed: u64) -> bool {
    &&& disk::ascending(log)
    &&& disk::log_named(log)
    &&& forall|i: int| 0 <= i < log.len() ==> disk::changes_once(#[trigger] log[i])
    &&& version <= committed
    &&& forall|i: int| 0 <= i < log.len() ==> (#[trigger] log[i]).version <= committed
    &&& committed == version || (log.len() > 0 && log.last().version == committed)
}

/// The log holds nothing above a version and up to it.
pub proof fn lemma_no_logs(d: Disk, at: u64, tables: Seq<TableView>)
    ensures
        disk::delta_logged(Map::empty(), d, at, at, tables),
{
    assert forall|key: Seq<u8>, v: VersionView| !(#[trigger] d.logs(at, at, key, v)) by {
        if d.logs(at, at, key, v) {
            let (i, j) = choose|i: int, j: int| #[trigger] d.change(i, j) && disk::logged_as(d.log[i], j, at, at, key, v);
        }
    }
}

/// A log that ends at a version holds nothing above it.
pub proof fn lemma_nothing_above(d: Disk, at: u64, tables: Seq<TableView>)
    requires
        forall|i: int| 0 <= i < d.log.len() ==> (#[trigger] d.log[i]).version <= at,
    ensures
        disk::delta_logged(Map::empty(), d, at, u64::MAX, tables),
{
    assert forall|key: Seq<u8>, v: VersionView| !(#[trigger] d.logs(at, u64::MAX, key, v)) by {
        if d.logs(at, u64::MAX, key, v) {
            let (i, j) = choose|i: int, j: int| #[trigger] d.change(i, j) && disk::logged_as(d.log[i], j, at, u64::MAX, key, v);
            assert(d.log[i].version <= at);
        }
    }
}

/// The versions of sound runs, and those of the run of one more segment, make a
/// sound list.
pub proof fn lemma_joined_sound(
    old_list: Seq<VersionView>,
    list: Seq<VersionView>,
    items: Seq<ItemView>,
    locs: Seq<u64>,
    segment: u32,
    tables: Seq<TableView>,
    key: Seq<u8>,
    lo: u64,
    hi: u64,
)
    requires
        segment < u32::MAX,
        disk::list_sound(old_list, lo, segment),
        items_sole(items),
        lo <= hi,
        forall|k: int| 0 <= k < items.len() ==> lo < (#[trigger] items[k]).version <= hi,
        forall|v: VersionView|
            #[trigger] list.contains(v) <==> exists|k: int| #[trigger] run_item(items, locs, segment, tables, key, v, k),
    ensures
        disk::list_sound(old_list + list, hi, (segment + 1) as u32),
{
    let all = old_list + list;
    checkpoint_laws::lemma_concat_contains(old_list, list);
    assert forall|v: VersionView| #[trigger] list.contains(v) implies lo < v.version <= hi && disk::lives_below(v, (segment + 1) as u32) by {
        let k = choose|k: int| #[trigger] run_item(items, locs, segment, tables, key, v, k);
        assert(lo < items[k].version <= hi);
    }
    assert forall|v: VersionView| #[trigger] all.contains(v) implies v.version <= hi && disk::lives_below(v, (segment + 1) as u32) by {
        if old_list.contains(v) {
            assert(disk::lives_below(v, segment));
        }
    }
    assert forall|i: int, j: int| 0 <= i < all.len() && 0 <= j < all.len() && (#[trigger] all[i]).version == (#[trigger] all[j]).version implies all[i]
        == all[j] by {
        let v = all[i];
        let w = all[j];
        assert(all.contains(v) && all.contains(w));
        if old_list.contains(v) && old_list.contains(w) {
            let a = old_list.index_of(v);
            let b = old_list.index_of(w);
            assert(old_list[a] == old_list[b]);
        } else {
            assert(old_list.contains(v) ==> v.version <= lo);
            assert(old_list.contains(w) ==> w.version <= lo);
            assert(list.contains(v) && list.contains(w));
            let a = choose|k: int| #[trigger] run_item(items, locs, segment, tables, key, v, k);
            let b = choose|k: int| #[trigger] run_item(items, locs, segment, tables, key, w, k);
            assert(items[a].key == items[b].key);
        }
    }
}

proof fn lemma_flush_kept(
    before: &State,
    after: &State,
    d: Disk,
    d2: Disk,
    s: Seq<(Seq<u8>, Seq<VersionView>)>,
    c: Checkpoint,
    order: Seq<usize>,
    locs: Seq<u64>,
    meta: RunMetaView,
    superseded: bool,
    keep_run: bool,
)
    requires
        before.wf(),
        disk::keeps(d, before),
        grown(d, d2, checkpoint::items_of(s), order, c.segment, c.image@),
        checkpoint::holds_items(checkpoint::items_of(s), order, locs, before.catalog@, c),
        checkpoint::taken_over(before, after, c, meta, superseded, keep_run),
        !keep_run ==> c.run.rows().len() == 0,
        c.segment == before.next_segment_id,
        c.metas@ == before.metas@.push(levels::SegmentMeta { id: c.segment, len: c.image@.len() as u64 }),
        after.index.frozen is None,
        log_fits(d2.log, d2.version, before.committed_version),
        disk::delta_logged(after.index.delta@, d2, d2.version, u64::MAX, before.catalog@),
    ensures
        disk::keeps(d2, after),
{
    let items = checkpoint::items_of(s);
    let tables = before.catalog@;
    lemma_grown(d, d2, items, order, c.segment, c.image@);
    lemma_no_logs(d2, d2.version, tables);
    assert(after.images() == d2.segments);
    assert(disk::metas_match(after.metas@, d2.segments));
    assert forall|k: int| 0 <= k < d2.segments.len() implies (#[trigger] d2.segments[k]).id < after.next_segment_id by {
        if k < d.segments.len() {
            assert(d2.segments[k] == d.segments[k]);
        }
    }
    assert forall|key: Seq<u8>| (#[trigger] primary::run_entries(after.index.runs@, key)) matches Ok(t) && disk::list_sound(
        t,
        d2.version,
        after.next_segment_id,
    ) by {
        lemma_new_run(items, locs, c.segment, tables, c.run.rows(), key);
        checkpoint_laws::lemma_runs_after(before, after, c, meta, superseded, keep_run, key);
        assert(primary::run_entries(before.index.runs@, key) is Ok);
        let old_list = primary::run_entries(before.index.runs@, key)->Ok_0;
        let list = primary::entries_of(paged::values_of(c.run.rows(), key))->Ok_0;
        lemma_joined_sound(old_list, list, items, locs, c.segment, tables, key, d.version, d2.version);
    }
    assert(disk::runs_sound(&after.index, d2.version, after.next_segment_id));
    assert(disk::runs_agree(&after.index, d2, after.catalog@)) by {
        assert forall|table: Seq<char>, id: Seq<char>| #[trigger] disk::run_agrees(&after.index, d2, after.catalog@, table, id) by {
            if schema::table_of(tables, table) is Some {
                let key = version::key_of(encode_utf8(table), encode_utf8(id));
                assert(disk::run_agrees(&before.index, d, tables, table, id));
                before.lemma_table(table);
                lemma_new_run(items, locs, c.segment, tables, c.run.rows(), key);
                checkpoint_laws::lemma_runs_after(before, after, c, meta, superseded, keep_run, key);
                let old_list = primary::run_entries(before.index.runs@, key)->Ok_0;
                let list = primary::entries_of(paged::values_of(c.run.rows(), key))->Ok_0;
                lemma_grown_agrees(d, d2, items, order, locs, c.segment, c.image@, tables, table, id, old_list, list);
            }
        }
    }
}

/// An image has at least a byte for each entry.
pub proof fn lemma_image_long(items: Seq<ItemView>, order: Seq<usize>, n: int)
    requires
        0 <= n,
    ensures
        segwrite::image_bytes(items, order, n).len() >= n,
    decreases n,
{
    if n > 0 {
        lemma_image_long(items, order, n - 1);
    }
}

/// The order of a written image reaches every item once.
proof fn lemma_written_order(items: Seq<ItemView>, order: Seq<usize>, locs: Seq<u64>, image: Seq<u8>)
    requires
        segwrite::is_written(items, order, locs, image),
        image.len() <= usize::MAX,
    ensures
        is_order(items.len() as int, order),
{
    broadcast use vstd::seq_lib::group_to_multiset_ensures;

    let all = segwrite::span(0, items.len() as int);
    assert(order.len() == order.to_multiset().len());
    assert(all.len() == all.to_multiset().len());
    lemma_image_long(items, order, order.len() as int);
    lemma_order_is(items.len() as int, order);
}

/// The log holds nothing past its last version.
pub proof fn lemma_logs_capped(d: Disk, lo: u64, hi: u64, key: Seq<u8>, v: VersionView)
    requires
        forall|i: int| 0 <= i < d.log.len() ==> (#[trigger] d.log[i]).version <= hi,
    ensures
        d.logs(lo, u64::MAX, key, v) <==> d.logs(lo, hi, key, v),
{
    if d.logs(lo, u64::MAX, key, v) {
        let (i, j) = choose|i: int, j: int| #[trigger] d.change(i, j) && disk::logged_as(d.log[i], j, lo, u64::MAX, key, v);
        assert(d.log[i].version <= hi);
        assert(d.change(i, j) && disk::logged_as(d.log[i], j, lo, hi, key, v));
    }
    if d.logs(lo, hi, key, v) {
        let (i, j) = choose|i: int, j: int| #[trigger] d.change(i, j) && disk::logged_as(d.log[i], j, lo, hi, key, v);
        assert(d.change(i, j) && disk::logged_as(d.log[i], j, lo, u64::MAX, key, v));
    }
}

/// What is logged is logged up to the last version of the log.
pub proof fn lemma_delta_capped(delta: Map<Seq<u8>, Seq<VersionView>>, d: Disk, lo: u64, hi: u64, tables: Seq<TableView>)
    requires
        disk::delta_logged(delta, d, lo, u64::MAX, tables),
        forall|i: int| 0 <= i < d.log.len() ==> (#[trigger] d.log[i]).version <= hi,
    ensures
        disk::delta_logged(delta, d, lo, hi, tables),
{
    assert forall|key: Seq<u8>, v: VersionView| #[trigger] primary::resident(delta, key).contains(v) implies d.logs(lo, hi, key, v) by {
        lemma_logs_capped(d, lo, hi, key, v);
    }
    assert forall|table: Seq<char>, id: Seq<char>| #[trigger] disk::log_resident(delta, d, lo, hi, tables, table, id) by {
        assert(disk::log_resident(delta, d, lo, u64::MAX, tables, table, id));
        if schema::table_of(tables, table) is Some {
            let key = version::key_of(encode_utf8(table), encode_utf8(id));
            let t = schema::table_of(tables, table)->0;
            assert forall|v: VersionView| #[trigger] d.logs(lo, hi, key, v) && v.version > t.epoch implies primary::resident(
                delta,
                key,
            ).contains(v) by {
                lemma_logs_capped(d, lo, hi, key, v);
            }
        }
    }
}

/// A checkpoint of all resident versions: beside its manifest, which names the
/// new segment and the committed version, the files hold what is committed. The
/// log may be empty or still have its old records.
pub proof fn lemma_checkpoint_kept(
    before: &State,
    after: &State,
    d: Disk,
    log: Seq<WalView>,
    c: Checkpoint,
    meta: RunMetaView,
)
    requires
        before.wf(),
        disk::keeps(d, before),
        before.index.frozen is None,
        checkpoint::is_checkpoint(before.index.delta.pairs(), before.catalog@, before.committed_version, before.metas@, c),
        c.segment == before.next_segment_id,
        checkpoint::taken_over(before, after, c, meta, c.superseded, c.run.rows().len() > 0),
        after.index.delta@ == Map::<Seq<u8>, Seq<VersionView>>::empty(),
        after.index.frozen is None,
        log_fits(log, before.committed_version, before.committed_version),
    ensures
        disk::keeps(
            Disk {
                version: before.committed_version,
                segments: d.segments.push(SegmentView { id: c.segment, image: c.image@ }),
                log,
            },
            after,
        ),
{
    let s = before.index.delta.pairs();
    let d2 = Disk {
        version: before.committed_version,
        segments: d.segments.push(SegmentView { id: c.segment, image: c.image@ }),
        log,
    };
    before.index.delta.lemma_wf();
    let tables = before.catalog@;
    let (order, locs) = choose|order: Seq<usize>, locs: Seq<u64>|
        #[trigger] checkpoint::holds_items(checkpoint::items_of(s), order, locs, tables, c);
    let items = checkpoint::items_of(s);
    lemma_delta_capped(before.index.delta@, d, d.version, before.committed_version, tables);
    lemma_items_ready(s, d, d.version, before.committed_version, tables);
    lemma_written_order(items, order, locs, c.image@);
    assert(grown(d, d2, items, order, c.segment, c.image@));
    lemma_nothing_above(d2, d2.version, tables);
    lemma_flush_kept(before, after, d, d2, s, c, order, locs, meta, c.superseded, c.run.rows().len() > 0);
}

/// The records of a log above a version, in another log.
pub open spec fn same_tail(a: Seq<WalView>, b: Seq<WalView>, version: u64) -> bool {
    forall|rec: WalView| rec.version > version ==> (#[trigger] a.contains(rec) <==> b.contains(rec))
}

proof fn lemma_tail_logs(a: Disk, b: Disk, lo: u64, key: Seq<u8>, v: VersionView)
    requires
        same_tail(a.log, b.log, lo),
        a.logs(lo, u64::MAX, key, v),
    ensures
        b.logs(lo, u64::MAX, key, v),
{
    let (i, j) = choose|i: int, j: int| #[trigger] a.change(i, j) && disk::logged_as(a.log[i], j, lo, u64::MAX, key, v);
    assert(a.log.contains(a.log[i]));
    let k = b.log.index_of(a.log[i]);
    assert(b.change(k, j));
}

proof fn lemma_tail_delta(delta: Map<Seq<u8>, Seq<VersionView>>, a: Disk, b: Disk, lo: u64, tables: Seq<TableView>)
    requires
        same_tail(a.log, b.log, lo),
        disk::delta_logged(delta, a, lo, u64::MAX, tables),
    ensures
        disk::delta_logged(delta, b, lo, u64::MAX, tables),
{
    assert forall|key: Seq<u8>, v: VersionView| #[trigger] primary::resident(delta, key).contains(v) implies b.logs(
        lo,
        u64::MAX,
        key,
        v,
    ) by {
        lemma_tail_logs(a, b, lo, key, v);
    }
    assert forall|table: Seq<char>, id: Seq<char>| #[trigger] disk::log_resident(delta, b, lo, u64::MAX, tables, table, id) by {
        assert(disk::log_resident(delta, a, lo, u64::MAX, tables, table, id));
        if schema::table_of(tables, table) is Some {
            let key = version::key_of(encode_utf8(table), encode_utf8(id));
            let t = schema::table_of(tables, table)->0;
            assert forall|v: VersionView| #[trigger] b.logs(lo, u64::MAX, key, v) && v.version > t.epoch implies primary::resident(
                delta,
                key,
            ).contains(v) by {
                lemma_tail_logs(b, a, lo, key, v);
            }
        }
    }
}

/// A checkpoint of frozen versions: its manifest names the version of the
/// freeze, and the log keeps the commits above it.
pub proof fn lemma_frozen_kept(
    before: &State,
    after: &State,
    d: Disk,
    log: Seq<WalView>,
    c: Checkpoint,
    meta: RunMetaView,
    superseded: bool,
)
    requires
        before.wf(),
        disk::keeps(d, before),
        before.index.frozen matches Some(f) && checkpoint::is_checkpoint(
            f.delta.pairs(),
            before.catalog@,
            f.version,
            before.metas@,
            c,
        ),
        c.segment == before.next_segment_id,
        checkpoint::taken_over(before, after, c, meta, superseded, true),
        after.index.delta == before.index.delta,
        after.index.frozen is None,
        log_fits(log, before.index.frozen->0.version, before.committed_version),
        same_tail(d.log, log, before.index.frozen->0.version),
    ensures
        disk::keeps(
            Disk {
                version: before.index.frozen->0.version,
                segments: d.segments.push(SegmentView { id: c.segment, image: c.image@ }),
                log,
            },
            after,
        ),
{
    let f = before.index.frozen->0;
    let s = f.delta.pairs();
    let d2 = Disk { version: f.version, segments: d.segments.push(SegmentView { id: c.segment, image: c.image@ }), log };
    f.delta.lemma_wf();
    let tables = before.catalog@;
    let (order, locs) = choose|order: Seq<usize>, locs: Seq<u64>|
        #[trigger] checkpoint::holds_items(checkpoint::items_of(s), order, locs, tables, c);
    let items = checkpoint::items_of(s);
    lemma_items_ready(s, d, d.version, f.version, tables);
    lemma_written_order(items, order, locs, c.image@);
    assert(grown(d, d2, items, order, c.segment, c.image@));
    lemma_tail_delta(before.index.delta@, d, d2, f.version, tables);
    lemma_flush_kept(before, after, d, d2, s, c, order, locs, meta, superseded, true);
}

// ---- What a manifest covers -------------------------------------------------

/// A segment holds a version that reads like a logged one.
pub open spec fn covers(d: Disk, key: Seq<u8>, v: VersionView) -> bool {
    exists|w: VersionView| d.stores(key, w) && #[trigger] same_content(d.segments, d.segments, v, w)
}

proof fn lemma_flush_covers(
    d: Disk,
    d2: Disk,
    s: Seq<(Seq<u8>, Seq<VersionView>)>,
    c: Checkpoint,
    order: Seq<usize>,
    locs: Seq<u64>,
    tables: Seq<TableView>,
    table: Seq<char>,
    id: Seq<char>,
    v: VersionView,
)
    requires
        d.sound(),
        pairs::sorted(s),
        grown(d, d2, checkpoint::items_of(s), order, c.segment, c.image@),
        checkpoint::holds_items(checkpoint::items_of(s), order, locs, tables, c),
        v.kind.is_resident(),
        primary::resident(pairs::to_map(s), version::key_of(encode_utf8(table), encode_utf8(id))).contains(v),
    ensures
        covers(d2, version::key_of(encode_utf8(table), encode_utf8(id)), v),
{
    let key = version::key_of(encode_utf8(table), encode_utf8(id));
    let items = checkpoint::items_of(s);
    checkpoint::lemma_delta_items(s, s.len() as int);
    let p = pairs::index_of(s, key);
    assert(pairs::has_key(s, key));
    pairs::lemma_to_map_at(s, p);
    let q = s[p].1.index_of(v);
    assert(s[p].1[q].kind.is_resident());
    let m = checkpoint::item_for(key, v);
    assert(items.contains(m));
    let k = items.index_of(m);
    assert(order.contains(k as usize));
    let x = order.index_of(k as usize);
    lemma_grown(d, d2, items, order, c.segment, c.image@);
    lemma_new_key(items, order, c.segment, x);
    let w = new_entry(items, order, c.segment, x).entry;
    assert(new_entry(items, order, c.segment, x) == (FoundView { key, entry: w }));
    assert(new_stores(items, order, c.segment, key, w));
    lemma_entry_stands(items, order, c.segment, c.image@, x);
    assert(segwrite::item_fits(items[k]));
    let e = segwrite::entry_for(m, segwrite::entry_start(items, order, x));
    assert(d2.segments.last() == (SegmentView { id: c.segment, image: c.image@ }));
    assert(segment::image_of(d2.segments, c.segment) == Some(c.image@));
    assert(segwrite::located_at(items[k], locs[k], c.image@));
    assert(same_content(d2.segments, d2.segments, v, w));
}

/// What the log holds is resident before it is in a segment.
proof fn lemma_logged_kind(d: Disk, lo: u64, hi: u64, key: Seq<u8>, v: VersionView)
    requires
        d.logs(lo, hi, key, v),
    ensures
        v.kind.is_resident(),
{
}

/// The segments that the manifest of a checkpoint names hold every commit up to
/// its version: whatever the log had of a record, as far as its table counts it.
pub proof fn lemma_checkpoint_covers(
    before: &State,
    d: Disk,
    log: Seq<WalView>,
    c: Checkpoint,
    table: Seq<char>,
    id: Seq<char>,
    v: VersionView,
)
    requires
        before.wf(),
        disk::keeps(d, before),
        before.index.frozen is None,
        checkpoint::is_checkpoint(before.index.delta.pairs(), before.catalog@, before.committed_version, before.metas@, c),
        c.segment == before.next_segment_id,
        log_fits(log, before.committed_version, before.committed_version),
        before.table_view(table) matches Some(t) && v.version > t.epoch,
        d.logs(d.version, u64::MAX, version::key_of(encode_utf8(table), encode_utf8(id)), v),
    ensures
        v.version <= before.committed_version,
        covers(
            Disk {
                version: before.committed_version,
                segments: d.segments.push(SegmentView { id: c.segment, image: c.image@ }),
                log,
            },
            version::key_of(encode_utf8(table), encode_utf8(id)),
            v,
        ),
{
    let key = version::key_of(encode_utf8(table), encode_utf8(id));
    let s = before.index.delta.pairs();
    let d2 = Disk {
        version: before.committed_version,
        segments: d.segments.push(SegmentView { id: c.segment, image: c.image@ }),
        log,
    };
    before.index.delta.lemma_wf();
    let tables = before.catalog@;
    let (order, locs) = choose|order: Seq<usize>, locs: Seq<u64>|
        #[trigger] checkpoint::holds_items(checkpoint::items_of(s), order, locs, tables, c);
    let items = checkpoint::items_of(s);
    lemma_delta_capped(before.index.delta@, d, d.version, before.committed_version, tables);
    lemma_items_ready(s, d, d.version, before.committed_version, tables);
    lemma_written_order(items, order, locs, c.image@);
    assert(grown(d, d2, items, order, c.segment, c.image@));
    assert(disk::log_resident(before.index.delta@, d, d.version, u64::MAX, tables, table, id));
    lemma_logged_kind(d, d.version, u64::MAX, key, v);
    lemma_logs_capped(d, d.version, before.committed_version, key, v);
    lemma_flush_covers(d, d2, s, c, order, locs, tables, table, id, v);
}

/// The segments that the manifest of a frozen checkpoint names hold every commit
/// up to the version of the freeze.
pub proof fn lemma_frozen_covers(
    before: &State,
    d: Disk,
    log: Seq<WalView>,
    c: Checkpoint,
    table: Seq<char>,
    id: Seq<char>,
    v: VersionView,
)
    requires
        before.wf(),
        disk::keeps(d, before),
        before.index.frozen matches Some(f) && checkpoint::is_checkpoint(
            f.delta.pairs(),
            before.catalog@,
            f.version,
            before.metas@,
            c,
        ),
        c.segment == before.next_segment_id,
        log_fits(log, before.index.frozen->0.version, before.committed_version),
        before.table_view(table) matches Some(t) && v.version > t.epoch,
        d.logs(
            d.version,
            before.index.frozen->0.version,
            version::key_of(encode_utf8(table), encode_utf8(id)),
            v,
        ),
    ensures
        covers(
            Disk {
                version: before.index.frozen->0.version,
                segments: d.segments.push(SegmentView { id: c.segment, image: c.image@ }),
                log,
            },
            version::key_of(encode_utf8(table), encode_utf8(id)),
            v,
        ),
{
    let key = version::key_of(encode_utf8(table), encode_utf8(id));
    let f = before.index.frozen->0;
    let s = f.delta.pairs();
    let d2 = Disk { version: f.version, segments: d.segments.push(SegmentView { id: c.segment, image: c.image@ }), log };
    f.delta.lemma_wf();
    let tables = before.catalog@;
    let (order, locs) = choose|order: Seq<usize>, locs: Seq<u64>|
        #[trigger] checkpoint::holds_items(checkpoint::items_of(s), order, locs, tables, c);
    let items = checkpoint::items_of(s);
    lemma_items_ready(s, d, d.version, f.version, tables);
    lemma_written_order(items, order, locs, c.image@);
    assert(grown(d, d2, items, order, c.segment, c.image@));
    assert(disk::log_resident(f.delta@, d, d.version, f.version, tables, table, id));
    lemma_logged_kind(d, d.version, f.version, key, v);
    lemma_flush_covers(d, d2, s, c, order, locs, tables, table, id, v);
}

} // verus!
