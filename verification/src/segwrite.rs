//! Writing versions into a new segment, and the run that finds them there.

use crate::bytes;
use crate::error::{invalid, Error, ErrorView};
use crate::model;
use crate::paged::{self, Row};
use crate::schema::{self, Catalog, TableView};
use crate::segment::{self, append_entry, EntryView};
use crate::version::{self, encode_primary_entry, KindView, VKind, VersionEntry, VersionView};
use std::sync::Arc;
use vstd::prelude::*;
use vstd::utf8::*;

verus! {

/// A version that is to be written. `key` is its primary key.
pub struct SegItem {
    pub key: Vec<u8>,
    pub table: String,
    pub id: String,
    pub version: u64,
    pub payload: Option<Arc<Vec<u8>>>,
}

#[verifier::ext_equal]
pub struct ItemView {
    pub key: Seq<u8>,
    pub table: Seq<char>,
    pub id: Seq<char>,
    pub version: u64,
    pub payload: Option<Seq<u8>>,
}

impl View for SegItem {
    type V = ItemView;

    open spec fn view(&self) -> ItemView {
        ItemView {
            key: self.key@,
            table: self.table@,
            id: self.id@,
            version: self.version,
            payload: match self.payload {
                Some(p) => Some(p@),
                None => None,
            },
        }
    }
}

pub open spec fn item_payload(m: ItemView) -> Seq<u8> {
    match m.payload {
        Some(p) => p,
        None => Seq::empty(),
    }
}

/// The segment entry of a version.
pub open spec fn item_bytes(m: ItemView) -> Seq<u8> {
    segment::segment_entry(m.payload is None, m.version, encode_utf8(m.table), encode_utf8(m.id), item_payload(m))
}

/// The lengths fit the fields of an entry.
pub open spec fn item_fits(m: ItemView) -> bool {
    &&& encode_utf8(m.table).len() <= u16::MAX
    &&& encode_utf8(m.id).len() <= u16::MAX
    &&& item_payload(m).len() <= u32::MAX
}

pub open spec fn too_long() -> ErrorView {
    ErrorView::InvalidArgument("segment entry is too long"@)
}

/// The entries of the first `n` versions in an order, one after another.
pub open spec fn image_bytes(items: Seq<ItemView>, order: Seq<usize>, n: int) -> Seq<u8>
    decreases n,
{
    if n <= 0 {
        Seq::empty()
    } else {
        image_bytes(items, order, n - 1) + item_bytes(items[order[n - 1] as int])
    }
}

/// The payload of a version stands at a place of the image.
pub open spec fn located_at(m: ItemView, at: u64, image: Seq<u8>) -> bool {
    m.payload matches Some(p) ==> at + p.len() <= image.len() && image.subrange(at as int, at + p.len()) == p
}

pub open spec fn located(items: Seq<ItemView>, locs: Seq<u64>, image: Seq<u8>) -> bool {
    &&& locs.len() == items.len()
    &&& forall|i: int| 0 <= i < items.len() ==> located_at(#[trigger] items[i], locs[i], image)
}

/// Every index from `lo` to `hi`.
pub open spec fn span(lo: int, hi: int) -> Seq<usize> {
    Seq::new((hi - lo) as nat, |i: int| (lo + i) as usize)
}

/// The versions never decrease along the order.
pub open spec fn by_version(items: Seq<ItemView>, order: Seq<usize>) -> bool {
    forall|i: int, j: int|
        0 <= i <= j < order.len() ==> items[#[trigger] order[i] as int].version <= items[#[trigger] order[j] as int].version
}

/// The image holds every version once, the older before the newer, and the
/// places of all payloads are known.
pub open spec fn is_written(items: Seq<ItemView>, order: Seq<usize>, locs: Seq<u64>, image: Seq<u8>) -> bool {
    &&& order.to_multiset() == span(0, items.len() as int).to_multiset()
    &&& by_version(items, order)
    &&& image == image_bytes(items, order, order.len() as int)
    &&& located(items, locs, image)
}

// ---- The order of versions --------------------------------------------------

fn merge_orders(items: &Vec<SegItem>, a: &Vec<usize>, b: &Vec<usize>) -> (r: Vec<usize>)
    requires
        forall|k: int| 0 <= k < a@.len() ==> (#[trigger] a@[k]) < items@.len(),
        forall|k: int| 0 <= k < b@.len() ==> (#[trigger] b@[k]) < items@.len(),
        by_version(model::views(items@), a@),
        by_version(model::views(items@), b@),
    ensures
        forall|k: int| 0 <= k < r@.len() ==> (#[trigger] r@[k]) < items@.len(),
        by_version(model::views(items@), r@),
        r@.to_multiset() == a@.to_multiset().add(b@.to_multiset()),
{
    broadcast use vstd::seq_lib::group_to_multiset_ensures;

    let ghost v = model::views(items@);
    let mut out: Vec<usize> = Vec::new();
    let mut i: usize = 0;
    let mut j: usize = 0;
    assert(a@.subrange(0, 0) =~= Seq::<usize>::empty());
    assert(b@.subrange(0, 0) =~= Seq::<usize>::empty());
    assert(out@.to_multiset() =~= a@.subrange(0, 0).to_multiset().add(b@.subrange(0, 0).to_multiset()));
    while i < a.len() || j < b.len()
        invariant
            v == model::views(items@),
            forall|k: int| 0 <= k < a@.len() ==> (#[trigger] a@[k]) < items@.len(),
            forall|k: int| 0 <= k < b@.len() ==> (#[trigger] b@[k]) < items@.len(),
            by_version(v, a@),
            by_version(v, b@),
            i <= a@.len(),
            j <= b@.len(),
            forall|k: int| 0 <= k < out@.len() ==> (#[trigger] out@[k]) < items@.len(),
            by_version(v, out@),
            out@.to_multiset() == a@.subrange(0, i as int).to_multiset().add(b@.subrange(0, j as int).to_multiset()),
            forall|k: int, x: int|
                0 <= k < out@.len() && i <= x < a@.len() ==> v[#[trigger] out@[k] as int].version <= v[#[trigger] a@[x] as int].version,
            forall|k: int, x: int|
                0 <= k < out@.len() && j <= x < b@.len() ==> v[#[trigger] out@[k] as int].version <= v[#[trigger] b@[x] as int].version,
        decreases a@.len() - i + b@.len() - j,
    {
        broadcast use vstd::seq_lib::group_to_multiset_ensures;

        let first: bool = if i >= a.len() {
            false
        } else if j >= b.len() {
            true
        } else {
            items[a[i]].version <= items[b[j]].version
        };
        let ghost before = out@;
        let ghost ma = a@.subrange(0, i as int).to_multiset();
        let ghost mb = b@.subrange(0, j as int).to_multiset();
        let next: usize = if first {
            a[i]
        } else {
            b[j]
        };
        out.push(next);
        proof {
            assert(before.push(next).to_multiset() =~= before.to_multiset().insert(next));
            if first {
                assert(a@.subrange(0, i + 1) =~= a@.subrange(0, i as int).push(next));
                assert(a@.subrange(0, i + 1).to_multiset() =~= ma.insert(next));
                assert(out@.to_multiset() =~= ma.insert(next).add(mb));
                if j < b@.len() {
                    assert(v[a@[i as int] as int].version == items@[a@[i as int] as int].version);
                    assert(v[b@[j as int] as int].version == items@[b@[j as int] as int].version);
                }
            } else {
                assert(b@.subrange(0, j + 1) =~= b@.subrange(0, j as int).push(next));
                assert(b@.subrange(0, j + 1).to_multiset() =~= mb.insert(next));
                assert(out@.to_multiset() =~= ma.add(mb.insert(next)));
                if i < a@.len() {
                    assert(v[a@[i as int] as int].version == items@[a@[i as int] as int].version);
                    assert(v[b@[j as int] as int].version == items@[b@[j as int] as int].version);
                }
            }
        }
        if first {
            i = i + 1;
        } else {
            j = j + 1;
        }
    }
    assert(a@.subrange(0, i as int) =~= a@);
    assert(b@.subrange(0, j as int) =~= b@);
    out
}

fn order_range(items: &Vec<SegItem>, lo: usize, hi: usize) -> (r: Vec<usize>)
    requires
        lo <= hi <= items@.len(),
    ensures
        forall|k: int| 0 <= k < r@.len() ==> (#[trigger] r@[k]) < items@.len(),
        by_version(model::views(items@), r@),
        r@.to_multiset() == span(lo as int, hi as int).to_multiset(),
    decreases hi - lo,
{
    broadcast use vstd::seq_lib::group_to_multiset_ensures;

    let mut out: Vec<usize> = Vec::new();
    if hi - lo == 0 {
        assert(span(lo as int, hi as int) =~= out@);
        return out;
    }
    if hi - lo == 1 {
        out.push(lo);
        assert(span(lo as int, hi as int) =~= out@);
        return out;
    }
    let mid: usize = lo + (hi - lo) / 2;
    let a = order_range(items, lo, mid);
    let b = order_range(items, mid, hi);
    let r = merge_orders(items, &a, &b);
    proof {
        let x = span(lo as int, mid as int);
        let y = span(mid as int, hi as int);
        assert(span(lo as int, hi as int) =~= x + y);
        vstd::seq_lib::lemma_multiset_commutative(x, y);
    }
    r
}

/// The versions in the order in which a checkpoint writes them.
pub fn version_order(items: &Vec<SegItem>) -> (r: Vec<usize>)
    ensures
        forall|k: int| 0 <= k < r@.len() ==> (#[trigger] r@[k]) < items@.len(),
        by_version(model::views(items@), r@),
        r@.to_multiset() == span(0, items@.len() as int).to_multiset(),
{
    order_range(items, 0, items.len())
}

/// An order of all indexes reaches each of them.
pub proof fn lemma_order_reaches(n: int, order: Seq<usize>, i: int)
    requires
        order.to_multiset() == span(0, n).to_multiset(),
        0 <= i < n <= usize::MAX,
    ensures
        order.contains(i as usize),
        order.len() == n,
{
    broadcast use vstd::seq_lib::group_to_multiset_ensures;

    let all = span(0, n);
    assert(all[i] == i as usize);
    assert(all.contains(i as usize));
    assert(all.to_multiset().count(i as usize) > 0);
    assert(order.to_multiset().count(i as usize) > 0);
    assert(order.len() == order.to_multiset().len());
    assert(all.len() == all.to_multiset().len());
}

/// The versions in the order in which they stand.
pub fn same_order(n: usize) -> (r: Vec<usize>)
    ensures
        r@ == span(0, n as int),
{
    let mut out: Vec<usize> = Vec::new();
    let mut i: usize = 0;
    while i < n
        invariant
            i <= n,
            out@ == span(0, i as int),
        decreases n - i,
    {
        out.push(i);
        assert(out@ =~= span(0, i + 1));
        i = i + 1;
    }
    out
}

// ---- Writing ----------------------------------------------------------------

fn fits(m: &SegItem) -> (r: bool)
    ensures
        r == item_fits(m@),
{
    let n: usize = match &m.payload {
        Some(p) => p.len(),
        None => 0,
    };
    bytes::byte_len(m.table.as_str()) <= u16::MAX as usize && bytes::byte_len(m.id.as_str()) <= u16::MAX as usize && n
        <= u32::MAX as usize
}

/// Write versions in an order; the result is the image, and where each payload
/// stands in it.
pub fn write_items(items: &Vec<SegItem>, order: &Vec<usize>) -> (r: Result<(Vec<u8>, Vec<u64>), Error>)
    requires
        forall|k: int| 0 <= k < order@.len() ==> (#[trigger] order@[k]) < items@.len(),
    ensures
        match r {
            Ok(done) => {
                let v = model::views(items@);
                &&& done.0@ == image_bytes(v, order@, order@.len() as int)
                &&& done.1@.len() == items@.len()
                &&& forall|k: int| 0 <= k < order@.len() ==> located_at(
                    v[#[trigger] order@[k] as int],
                    done.1@[order@[k] as int],
                    done.0@,
                )
                &&& forall|k: int| 0 <= k < order@.len() ==> item_fits(v[#[trigger] order@[k] as int])
            },
            Err(e) => e@ == too_long() && exists|k: int|
                0 <= k < order@.len() && !item_fits(model::views(items@)[#[trigger] order@[k] as int]),
        },
{
    let ghost v = model::views(items@);
    let mut image: Vec<u8> = Vec::new();
    let mut locs: Vec<u64> = Vec::new();
    let mut i: usize = 0;
    while i < items.len()
        invariant
            i <= items@.len(),
            locs@.len() == i,
        decreases items@.len() - i,
    {
        locs.push(0);
        i = i + 1;
    }
    let mut k: usize = 0;
    while k < order.len()
        invariant
            forall|k: int| 0 <= k < order@.len() ==> (#[trigger] order@[k]) < items@.len(),
            v == model::views(items@),
            k <= order@.len(),
            locs@.len() == items@.len(),
            image@ == image_bytes(v, order@, k as int),
            forall|q: int| 0 <= q < k ==> located_at(v[#[trigger] order@[q] as int], locs@[order@[q] as int], image@),
            forall|q: int| 0 <= q < k ==> item_fits(v[#[trigger] order@[q] as int]),
        decreases order@.len() - k,
    {
        let at: usize = order[k];
        let m = &items[at];
        assert(v[at as int] == m@);
        if !fits(m) {
            assert(!item_fits(v[order@[k as int] as int]));
            return Err(invalid("segment entry is too long"));
        }
        let ghost before = image@;
        let ghost old_locs = locs@;
        let empty: Vec<u8> = Vec::new();
        let place: usize = match &m.payload {
            Some(p) => append_entry(
                &mut image,
                false,
                m.version,
                m.table.as_str().as_bytes(),
                m.id.as_str().as_bytes(),
                p.as_slice(),
            ),
            None => {
                assert(empty@ =~= Seq::<u8>::empty());
                append_entry(
                    &mut image,
                    true,
                    m.version,
                    m.table.as_str().as_bytes(),
                    m.id.as_str().as_bytes(),
                    empty.as_slice(),
                )
            },
        };
        locs.set(at, place as u64);
        proof {
            assert(image@ == before + item_bytes(m@));
            broadcast use bytes::lemma_le_len;

            assert(located_at(m@, place as u64, image@));
            assert forall|q: int| 0 <= q < k + 1 implies located_at(
                v[#[trigger] order@[q] as int],
                locs@[order@[q] as int],
                image@,
            ) by {
                if order@[q] != at {
                    assert(located_at(v[order@[q] as int], old_locs[order@[q] as int], before));
                    let m2 = v[order@[q] as int];
                    let l2 = old_locs[order@[q] as int];
                    if m2.payload is Some {
                        let p = m2.payload->0;
                        assert(image@.subrange(l2 as int, l2 + p.len()) =~= before.subrange(l2 as int, l2 + p.len()));
                    }
                }
            }
        }
        k = k + 1;
    }
    Ok((image, locs))
}

// ---- Reading an image back --------------------------------------------------

/// The entry of a version that begins at `at`.
pub open spec fn entry_for(m: ItemView, at: int) -> EntryView {
    EntryView {
        tombstone: m.payload is None,
        version: m.version,
        table: encode_utf8(m.table),
        id: encode_utf8(m.id),
        payload_offset: at + 17 + encode_utf8(m.table).len() + encode_utf8(m.id).len(),
        payload: item_payload(m),
    }
}

/// Where the `i`th entry of an image begins.
pub open spec fn entry_start(items: Seq<ItemView>, order: Seq<usize>, i: int) -> int {
    image_bytes(items, order, i).len() as int
}

proof fn lemma_image_prefix(items: Seq<ItemView>, order: Seq<usize>, a: int, b: int)
    requires
        0 <= a <= b,
    ensures
        image_bytes(items, order, a).len() <= image_bytes(items, order, b).len(),
        image_bytes(items, order, b).subrange(0, image_bytes(items, order, a).len() as int) == image_bytes(items, order, a),
    decreases b - a,
{
    let x = image_bytes(items, order, a);
    let y = image_bytes(items, order, b);
    if a < b {
        lemma_image_prefix(items, order, a, b - 1);
        let z = image_bytes(items, order, b - 1);
        assert(y == z + item_bytes(items[order[b - 1] as int]));
        assert(y.subrange(0, x.len() as int) =~= z.subrange(0, x.len() as int));
    } else {
        assert(y.subrange(0, x.len() as int) =~= x);
    }
}

/// Each entry of an image is sound where it begins, and the next follows it.
proof fn lemma_scan_step(items: Seq<ItemView>, order: Seq<usize>, segment: u32, i: int)
    requires
        0 <= i < order.len(),
        item_fits(items[order[i] as int]),
    ensures
        ({
            let image = image_bytes(items, order, order.len() as int);
            let at = entry_start(items, order, i);
            &&& 0 <= at < image.len()
            &&& segment::sound_at(image, at, segment)
            &&& segment::entry_at(image, at, segment)->Ok_0.0 == entry_for(items[order[i] as int], at)
            &&& segment::after_entry(image, at, segment) == entry_start(items, order, i + 1)
            &&& entry_start(items, order, i + 1) > at
        }),
{
    let n = order.len() as int;
    let image = image_bytes(items, order, n);
    let at = entry_start(items, order, i);
    lemma_image_prefix(items, order, i + 1, n);
    let m = items[order[i] as int];
    let prefix = image_bytes(items, order, i);
    let next = image_bytes(items, order, i + 1);
    let suffix = image.subrange(next.len() as int, image.len() as int);
    assert(next == prefix + item_bytes(m));
    assert(image =~= image.subrange(0, next.len() as int) + suffix);
    assert(image == prefix + item_bytes(m) + suffix);
    let t = encode_utf8(m.table);
    let id = encode_utf8(m.id);
    let p = item_payload(m);
    let head = segment::entry_head(m.payload is None, m.version, t, id, p);
    segment::lemma_entry_round_trip(prefix, m.payload is None, m.version, t, id, p, suffix, segment);
    bytes::lemma_le_len(crate::checksum::crc32(head) as nat, 4);
    assert(next.len() == at + head.len() + 4);
}

proof fn lemma_scans_from(items: Seq<ItemView>, order: Seq<usize>, segment: u32, i: int)
    requires
        0 <= i <= order.len(),
        forall|k: int| 0 <= k < order.len() ==> item_fits(items[#[trigger] order[k] as int]),
    ensures
        ({
            let image = image_bytes(items, order, order.len() as int);
            let rest = segment::entries_from(image, entry_start(items, order, i), segment);
            &&& rest.1 == image.len()
            &&& rest.0.len() == order.len() - i
            &&& forall|k: int| i <= k < order.len() ==> rest.0[k - i] == entry_for(
                items[#[trigger] order[k] as int],
                entry_start(items, order, k),
            )
        }),
    decreases order.len() - i,
{
    let n = order.len() as int;
    let image = image_bytes(items, order, n);
    let at = entry_start(items, order, i);
    if i < n {
        lemma_scans_from(items, order, segment, i + 1);
        assert(item_fits(items[order[i] as int]));
        lemma_scan_step(items, order, segment, i);
        let rest = segment::entries_from(image, entry_start(items, order, i + 1), segment);
        let all = segment::entries_from(image, at, segment);
        assert(all.0 == seq![entry_for(items[order[i] as int], at)] + rest.0);
        assert(all.1 == rest.1);
        assert forall|k: int| i <= k < n implies all.0[k - i] == entry_for(
            items[#[trigger] order[k] as int],
            entry_start(items, order, k),
        ) by {
            if k > i {
                assert(all.0[k - i] == rest.0[k - (i + 1)]);
            }
        }
    }
}

/// Scanning a written image gives back its entries, each once and in their
/// order, and nothing is left over.
pub proof fn lemma_image_scans(items: Seq<ItemView>, order: Seq<usize>, segment: u32)
    requires
        forall|k: int| 0 <= k < order.len() ==> item_fits(items[#[trigger] order[k] as int]),
    ensures
        ({
            let image = image_bytes(items, order, order.len() as int);
            let all = segment::entries_from(image, 0, segment);
            &&& all.1 == image.len()
            &&& all.0.len() == order.len()
            &&& forall|k: int| 0 <= k < order.len() ==> all.0[k] == entry_for(
                items[#[trigger] order[k] as int],
                entry_start(items, order, k),
            )
        }),
{
    lemma_scans_from(items, order, segment, 0);
    let image = image_bytes(items, order, order.len() as int);
    let rest = segment::entries_from(image, 0, segment);
    assert(entry_start(items, order, 0) == 0);
    assert forall|k: int| 0 <= k < order.len() implies rest.0[k] == entry_for(
        items[#[trigger] order[k] as int],
        entry_start(items, order, k),
    ) by {
        assert(rest.0[k - 0] == rest.0[k]);
    }
}

// ---- The run ----------------------------------------------------------------

/// The version that a segment holds at a place.
pub open spec fn placed(m: ItemView, segment: u32, at: u64) -> VersionView {
    VersionView {
        version: m.version,
        kind: match m.payload {
            Some(p) => KindView::SegPut { segment, payload_offset: at, payload_len: p.len() as u32 },
            None => KindView::SegTombstone,
        },
    }
}

/// When a table began; one that the catalog lacks began with the database.
pub open spec fn epoch_of(tables: Seq<TableView>, table: Seq<char>) -> u64 {
    match schema::table_of(tables, table) {
        Some(t) => t.epoch,
        None => 0,
    }
}

/// The rows of the run: the first `n` versions that their tables still count.
pub open spec fn run_rows(items: Seq<ItemView>, locs: Seq<u64>, segment: u32, tables: Seq<TableView>, n: int) -> Seq<(Seq<u8>, Seq<u8>)>
    decreases n,
{
    if n <= 0 {
        Seq::empty()
    } else {
        let m = items[n - 1];
        let rest = run_rows(items, locs, segment, tables, n - 1);
        if m.version > epoch_of(tables, m.table) {
            rest.push((m.key, version::entry_bytes(placed(m, segment, locs[n - 1]))))
        } else {
            rest
        }
    }
}

/// Make the rows of the run of a new segment.
pub fn make_run_rows(items: &Vec<SegItem>, locs: &Vec<u64>, segment: u32, catalog: &Catalog) -> (r: Vec<Row>)
    requires
        locs@.len() == items@.len(),
        forall|i: int| 0 <= i < items@.len() ==> item_fits((#[trigger] items@[i])@),
    ensures
        paged::row_views(r@) == run_rows(model::views(items@), locs@, segment, catalog@, items@.len() as int),
{
    let ghost v = model::views(items@);
    let mut out: Vec<Row> = Vec::new();
    let mut i: usize = 0;
    assert(paged::row_views(out@) =~= Seq::<(Seq<u8>, Seq<u8>)>::empty());
    while i < items.len()
        invariant
            locs@.len() == items@.len(),
            forall|i: int| 0 <= i < items@.len() ==> item_fits((#[trigger] items@[i])@),
            v == model::views(items@),
            i <= items@.len(),
            paged::row_views(out@) == run_rows(v, locs@, segment, catalog@, i as int),
        decreases items@.len() - i,
    {
        let m = &items[i];
        assert(v[i as int] == m@);
        assert(item_fits(m@));
        let epoch: u64 = match catalog.table(m.table.as_str()) {
            Some(t) => t.epoch,
            None => 0,
        };
        if m.version > epoch {
            let kind = match &m.payload {
                Some(p) => VKind::SegPut { segment, payload_offset: locs[i], payload_len: p.len() as u32 },
                None => VKind::SegTombstone,
            };
            let entry = VersionEntry { version: m.version, kind };
            assert(entry@ == placed(m@, segment, locs@[i as int]));
            match encode_primary_entry(&entry) {
                Ok(value) => {
                    let ghost before = out@;
                    out.push(Row { key: bytes::copy_of(m.key.as_slice()), value });
                    assert(paged::row_views(out@) =~= paged::row_views(before).push(
                        (m@.key, version::entry_bytes(placed(m@, segment, locs@[i as int]))),
                    ));
                },
                Err(_) => {
                    assert(false);
                },
            }
        }
        i = i + 1;
    }
    out
}

/// The row of a version, at its index.
pub open spec fn is_row_of(items: Seq<ItemView>, locs: Seq<u64>, segment: u32, tables: Seq<TableView>, k: int, row: (Seq<u8>, Seq<u8>)) -> bool {
    &&& 0 <= k < items.len()
    &&& items[k].version > epoch_of(tables, items[k].table)
    &&& row == (items[k].key, version::entry_bytes(placed(items[k], segment, locs[k])))
}

/// The run has the rows of the versions that count, and no others.
pub proof fn lemma_run_rows(items: Seq<ItemView>, locs: Seq<u64>, segment: u32, tables: Seq<TableView>, n: int, row: (Seq<u8>, Seq<u8>))
    requires
        0 <= n <= items.len(),
    ensures
        paged::holds_row(run_rows(items, locs, segment, tables, n), row) <==> exists|k: int|
            k < n && #[trigger] is_row_of(items, locs, segment, tables, k, row),
    decreases n,
{
    let s = run_rows(items, locs, segment, tables, n);
    if n > 0 {
        lemma_run_rows(items, locs, segment, tables, n - 1, row);
        let rest = run_rows(items, locs, segment, tables, n - 1);
        if paged::holds_row(s, row) {
            let i = choose|i: int| 0 <= i < s.len() && #[trigger] s[i] == row;
            if i < rest.len() {
                assert(rest[i] == row);
                let k = choose|k: int| k < n - 1 && #[trigger] is_row_of(items, locs, segment, tables, k, row);
                assert(is_row_of(items, locs, segment, tables, k, row));
            } else {
                assert(is_row_of(items, locs, segment, tables, n - 1, row));
            }
        }
        if exists|k: int| k < n && #[trigger] is_row_of(items, locs, segment, tables, k, row) {
            let k = choose|k: int| k < n && #[trigger] is_row_of(items, locs, segment, tables, k, row);
            if k == n - 1 {
                assert(s[rest.len() as int] == row);
            } else {
                assert(paged::holds_row(rest, row));
                let i = choose|i: int| 0 <= i < rest.len() && #[trigger] rest[i] == row;
                assert(s[i] == row);
            }
        }
    }
}

/// Versions in key order give rows in key order.
pub proof fn lemma_rows_in_order(items: Seq<ItemView>, locs: Seq<u64>, segment: u32, tables: Seq<TableView>, n: int)
    requires
        0 <= n <= items.len(),
        forall|i: int, j: int| 0 <= i <= j < items.len() ==> bytes::lex_le((#[trigger] items[i]).key, (#[trigger] items[j]).key),
    ensures
        paged::in_order(run_rows(items, locs, segment, tables, n)),
        forall|x: int| 0 <= x < run_rows(items, locs, segment, tables, n).len() ==> exists|k: int|
            0 <= k < n && (#[trigger] items[k]).key == (#[trigger] run_rows(items, locs, segment, tables, n)[x]).0,
    decreases n,
{
    if n > 0 {
        lemma_rows_in_order(items, locs, segment, tables, n - 1);
        let rest = run_rows(items, locs, segment, tables, n - 1);
        let s = run_rows(items, locs, segment, tables, n);
        assert forall|i: int, j: int| 0 <= i <= j < s.len() implies bytes::lex_le(#[trigger] s[i].0, #[trigger] s[j].0) by {
            if j < rest.len() {
                assert(s[i] == rest[i] && s[j] == rest[j]);
            } else if i < rest.len() {
                let k = choose|k: int| 0 <= k < n - 1 && (#[trigger] items[k]).key == rest[i].0;
                assert(s[i] == rest[i]);
                assert(items[k].key == s[i].0 && items[n - 1].key == s[j].0);
            }
        }
        assert forall|x: int| 0 <= x < s.len() implies exists|k: int|
            0 <= k < n && (#[trigger] items[k]).key == (#[trigger] s[x]).0 by {
            if x < rest.len() {
                let k = choose|k: int| 0 <= k < n - 1 && (#[trigger] items[k]).key == rest[x].0;
                assert(items[k].key == s[x].0);
            } else {
                assert(items[n - 1].key == s[x].0);
            }
        }
    }
}

} // verus!
