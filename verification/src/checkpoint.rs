//! Moving committed versions from memory into a segment.
//!
//! A checkpoint writes all resident versions, or those that a freeze set aside,
//! into one segment and one run of the primary index. The state takes both over
//! once the manifest names them.

use crate::bytes;
use crate::cow::{self, share, CowMap};
use crate::error::{corrupt, Error, ErrorView};
use crate::levels::{self, primary_generation, SegmentMeta};
use crate::model;
use crate::order::OrderedKey;
use crate::paged::PagedIndex;
use crate::pairs;
use crate::pipeline::BackgroundStatus;
use crate::primary::{self, group_versions, FrozenPrimary, PrimaryDelta, PrimaryIdx, Run, RunMeta, RunMetaView, Versions, PRIMARY_BASE_LEVEL};
use crate::schema::{Catalog, TableView};
use crate::segment::{self, Segment};
use crate::segwrite::{self, make_run_rows, version_order, write_items, ItemView, SegItem};
use crate::state::State;
use crate::version::{self, decode_primary_key, KindView, VKind, VersionEntry, VersionView};
use std::sync::Arc;
use vstd::prelude::*;
use vstd::string::*;
use vstd::utf8::*;

verus! {

// ---- The resident versions --------------------------------------------------

/// A resident version as a segment will hold it.
pub open spec fn item_for(key: Seq<u8>, v: VersionView) -> ItemView {
    let parts = version::key_parts(key)->Ok_0;
    ItemView {
        key,
        table: decode_utf8(parts.0),
        id: decode_utf8(parts.1),
        version: v.version,
        payload: match v.kind {
            KindView::MemPut(p) => Some(p),
            _ => None,
        },
    }
}

/// The resident versions among the first `n` of a record.
pub open spec fn version_items(key: Seq<u8>, vs: Seq<VersionView>, n: int) -> Seq<ItemView>
    decreases n,
{
    if n <= 0 {
        Seq::empty()
    } else if vs[n - 1].kind.is_resident() {
        version_items(key, vs, n - 1).push(item_for(key, vs[n - 1]))
    } else {
        version_items(key, vs, n - 1)
    }
}

/// The resident versions of the first `n` records.
pub open spec fn delta_items(s: Seq<(Seq<u8>, Seq<VersionView>)>, n: int) -> Seq<ItemView>
    decreases n,
{
    if n <= 0 {
        Seq::empty()
    } else {
        delta_items(s, n - 1) + version_items(s[n - 1].0, s[n - 1].1, s[n - 1].1.len() as int)
    }
}

pub open spec fn items_of(s: Seq<(Seq<u8>, Seq<VersionView>)>) -> Seq<ItemView> {
    delta_items(s, s.len() as int)
}

/// Every key names a table and an id.
pub open spec fn keys_named(s: Seq<(Seq<u8>, Seq<VersionView>)>) -> bool {
    forall|i: int| 0 <= i < s.len() ==> version::key_parts(#[trigger] s[i].0) is Ok
}

/// A record has more than one resident version.
pub open spec fn any_twice(s: Seq<(Seq<u8>, Seq<VersionView>)>, n: int) -> bool {
    exists|i: int| 0 <= i < n && version_items(#[trigger] s[i].0, s[i].1, s[i].1.len() as int).len() > 1
}

struct Drained {
    items: Vec<SegItem>,
    superseded: bool,
}

fn drain_record(key: &Vec<u8>, versions: &Versions, items: &mut Vec<SegItem>) -> (r: Result<usize, Error>)
    ensures
        match r {
            Ok(n) => {
                let more = version_items(key@, versions@, versions@.len() as int);
                &&& version::key_parts(key@) is Ok
                &&& model::views(final(items)@) == model::views(old(items)@) + more
                &&& n == more.len()
            },
            Err(e) => version::key_parts(key@) is Err && e@ == ErrorView::Corrupt(version::key_parts(key@)->Err_0),
        },
{
    let parts = match decode_primary_key(key.as_slice()) {
        Ok(parts) => parts,
        Err(e) => {
            return Err(e);
        },
    };
    proof {
        encode_utf8_decode_utf8(parts.0@);
        encode_utf8_decode_utf8(parts.1@);
    }
    let ghost start = model::views(items@);
    let ghost vs = versions@;
    let mut found: usize = 0;
    let mut i: usize = 0;
    assert(start + version_items(key@, vs, 0) =~= start);
    while i < versions.list.len()
        invariant
            vs == versions@,
            i <= versions.list@.len(),
            version::key_parts(key@) == Ok::<(Seq<u8>, Seq<u8>), Seq<char>>((encode_utf8(parts.0@), encode_utf8(parts.1@))),
            decode_utf8(encode_utf8(parts.0@)) == parts.0@,
            decode_utf8(encode_utf8(parts.1@)) == parts.1@,
            model::views(items@) == start + version_items(key@, vs, i as int),
            found == version_items(key@, vs, i as int).len(),
            found <= i,
        decreases versions.list@.len() - i,
    {
        let v = &versions.list[i];
        assert(vs[i as int] == v@);
        let payload: Option<Option<Arc<Vec<u8>>>> = match &v.kind {
            VKind::MemPut(p) => Some(Some(share(p))),
            VKind::MemTombstone => Some(None),
            _ => None,
        };
        match payload {
            Some(payload) => {
                let ghost before = items@;
                items.push(
                    SegItem {
                        key: bytes::copy_of(key.as_slice()),
                        table: parts.0.clone(),
                        id: parts.1.clone(),
                        version: v.version,
                        payload,
                    },
                );
                found = found + 1;
                proof {
                    assert(items@.last()@ == item_for(key@, vs[i as int]));
                    assert(model::views(items@) =~= model::views(before).push(item_for(key@, vs[i as int])));
                    assert(model::views(items@) =~= start + version_items(key@, vs, i + 1));
                }
            },
            None => {},
        }
        i = i + 1;
    }
    Ok(found)
}

/// Collect the resident versions in key order.
fn drain_resident(delta: &PrimaryDelta) -> (r: Result<Drained, Error>)
    requires
        delta.wf(),
    ensures
        match r {
            Ok(d) => {
                &&& keys_named(delta.pairs())
                &&& model::views(d.items@) == items_of(delta.pairs())
                &&& d.superseded == any_twice(delta.pairs(), delta.pairs().len() as int)
            },
            Err(e) => exists|i: int|
                0 <= i < delta.pairs().len() && version::key_parts(#[trigger] delta.pairs()[i].0) is Err && e@ == ErrorView::Corrupt(
                    version::key_parts(delta.pairs()[i].0)->Err_0,
                ),
        },
{
    let ghost s = delta.pairs();
    let list = delta.iter();
    let mut items: Vec<SegItem> = Vec::new();
    let mut superseded: bool = false;
    let mut i: usize = 0;
    assert(model::views(items@) =~= Seq::<ItemView>::empty());
    while i < list.len()
        invariant
            s == delta.pairs(),
            cow::entry_pairs(list@) == s,
            i <= list@.len(),
            forall|p: int| 0 <= p < i ==> version::key_parts(#[trigger] s[p].0) is Ok,
            model::views(items@) == delta_items(s, i as int),
            superseded == any_twice(s, i as int),
        decreases list@.len() - i,
    {
        let pair = list[i];
        assert(s[i as int] == (pair.0@, pair.1@)) by {
            assert(cow::entry_pairs(list@)[i as int] == (pair.0.rank(), pair.1@));
        }
        match drain_record(pair.0, pair.1, &mut items) {
            Ok(n) => {
                proof {
                    if n > 1 {
                        assert(version_items(s[i as int].0, s[i as int].1, s[i as int].1.len() as int).len() > 1);
                    } else if any_twice(s, i + 1) {
                        let p = choose|p: int| 0 <= p < i + 1 && version_items(#[trigger] s[p].0, s[p].1, s[p].1.len() as int).len() > 1;
                        assert(p < i);
                    }
                    if any_twice(s, i as int) {
                        let p = choose|p: int| 0 <= p < i && version_items(#[trigger] s[p].0, s[p].1, s[p].1.len() as int).len() > 1;
                        assert(version_items(s[p].0, s[p].1, s[p].1.len() as int).len() > 1 && p < i + 1);
                    }
                }
                if n > 1 {
                    superseded = true;
                }
            },
            Err(e) => {
                assert(version::key_parts(s[i as int].0) is Err);
                return Err(e);
            },
        }
        i = i + 1;
    }
    Ok(Drained { items, superseded })
}

/// A version of a record, as an item.
pub open spec fn came_from(s: Seq<(Seq<u8>, Seq<VersionView>)>, p: int, q: int, m: ItemView) -> bool {
    &&& 0 <= p < s.len()
    &&& 0 <= q < s[p].1.len()
    &&& s[p].1[q].kind.is_resident()
    &&& m == item_for(s[p].0, s[p].1[q])
}

/// An item is a version of one of the first `n` records.
pub open spec fn has_source(s: Seq<(Seq<u8>, Seq<VersionView>)>, n: int, m: ItemView) -> bool {
    exists|p: int, q: int| p < n && #[trigger] came_from(s, p, q, m)
}

/// An item is one of the first `n` versions of a record.
spec fn version_source(key: Seq<u8>, vs: Seq<VersionView>, n: int, m: ItemView) -> bool {
    exists|q: int| 0 <= q < n && (#[trigger] vs[q]).kind.is_resident() && m == item_for(key, vs[q])
}

proof fn lemma_version_items(key: Seq<u8>, vs: Seq<VersionView>, n: int)
    requires
        0 <= n <= vs.len(),
    ensures
        forall|k: int| 0 <= k < version_items(key, vs, n).len() ==> version_source(key, vs, n, #[trigger] version_items(key, vs, n)[k]),
        forall|q: int| 0 <= q < n && (#[trigger] vs[q]).kind.is_resident() ==> version_items(key, vs, n).contains(item_for(key, vs[q])),
    decreases n,
{
    if n > 0 {
        lemma_version_items(key, vs, n - 1);
        let rest = version_items(key, vs, n - 1);
        let s = version_items(key, vs, n);
        assert forall|k: int| 0 <= k < s.len() implies version_source(key, vs, n, #[trigger] s[k]) by {
            if k < rest.len() {
                assert(s[k] == rest[k]);
                assert(version_source(key, vs, n - 1, rest[k]));
                let q = choose|q: int| 0 <= q < n - 1 && (#[trigger] vs[q]).kind.is_resident() && rest[k] == item_for(key, vs[q]);
                assert(vs[q].kind.is_resident() && s[k] == item_for(key, vs[q]));
            } else {
                assert(vs[n - 1].kind.is_resident() && s[k] == item_for(key, vs[n - 1]));
            }
        }
        assert forall|q: int| 0 <= q < n && (#[trigger] vs[q]).kind.is_resident() implies s.contains(item_for(key, vs[q])) by {
            if q < n - 1 {
                let m = item_for(key, vs[q]);
                assert(rest.contains(m));
                assert(s[rest.index_of(m)] == m);
            } else {
                assert(s[rest.len() as int] == item_for(key, vs[q]));
            }
        }
    }
}

/// The items are the resident versions of all records, and stand in key order.
pub proof fn lemma_delta_items(s: Seq<(Seq<u8>, Seq<VersionView>)>, n: int)
    requires
        0 <= n <= s.len(),
        pairs::sorted(s),
    ensures
        forall|k: int| 0 <= k < delta_items(s, n).len() ==> has_source(s, n, #[trigger] delta_items(s, n)[k]),
        forall|p: int, q: int|
            0 <= p < n && 0 <= q < s[p].1.len() && (#[trigger] s[p].1[q]).kind.is_resident() ==> delta_items(s, n).contains(
                item_for(s[p].0, s[p].1[q]),
            ),
        forall|i: int, j: int|
            0 <= i <= j < delta_items(s, n).len() ==> bytes::lex_le(
                (#[trigger] delta_items(s, n)[i]).key,
                (#[trigger] delta_items(s, n)[j]).key,
            ),
    decreases n,
{
    if n > 0 {
        lemma_delta_items(s, n - 1);
        let key = s[n - 1].0;
        let vs = s[n - 1].1;
        lemma_version_items(key, vs, vs.len() as int);
        let rest = delta_items(s, n - 1);
        let more = version_items(key, vs, vs.len() as int);
        let all = delta_items(s, n);
        assert forall|k: int| 0 <= k < all.len() implies has_source(s, n, #[trigger] all[k]) by {
            if k < rest.len() {
                assert(all[k] == rest[k]);
                assert(has_source(s, n - 1, rest[k]));
                let (p, q) = choose|p: int, q: int| p < n - 1 && #[trigger] came_from(s, p, q, rest[k]);
                assert(came_from(s, p, q, all[k]));
            } else {
                let x = more[k - rest.len()];
                assert(all[k] == x);
                assert(version_source(key, vs, vs.len() as int, more[k - rest.len()]));
                let q = choose|q: int|
                    0 <= q < vs.len() && (#[trigger] vs[q]).kind.is_resident() && more[k - rest.len()] == item_for(key, vs[q]);
                assert(came_from(s, n - 1, q, all[k]));
            }
        }
        assert forall|p: int, q: int| 0 <= p < n && 0 <= q < s[p].1.len() && (#[trigger] s[p].1[q]).kind.is_resident() implies all.contains(
            item_for(s[p].0, s[p].1[q]),
        ) by {
            let m = item_for(s[p].0, s[p].1[q]);
            if p < n - 1 {
                assert(rest.contains(m));
                assert(all[rest.index_of(m)] == m);
            } else {
                assert(vs[q].kind.is_resident());
                assert(more.contains(m));
                assert(all[rest.len() + more.index_of(m)] == m);
            }
        }
        assert forall|i: int, j: int| 0 <= i <= j < all.len() implies bytes::lex_le(
            (#[trigger] all[i]).key,
            (#[trigger] all[j]).key,
        ) by {
            if j < rest.len() {
                assert(all[i] == rest[i] && all[j] == rest[j]);
            } else {
                assert(all[j] == more[j - rest.len()]);
                assert(all[j].key == key);
                if i < rest.len() {
                    assert(all[i] == rest[i]);
                    assert(has_source(s, n - 1, rest[i]));
                    let (p, q) = choose|p: int, q: int| p < n - 1 && #[trigger] came_from(s, p, q, rest[i]);
                    assert(bytes::lex_lt(s[p].0, s[n - 1].0));
                } else {
                    assert(all[i] == more[i - rest.len()]);
                    assert(all[i].key == key);
                }
            }
        }
    }
}

// ---- Writing the checkpoint -------------------------------------------------

/// A segment and a run that wait to be taken over.
pub struct Checkpoint {
    pub segment: u32,
    pub image: Arc<Vec<u8>>,
    pub run: PagedIndex,
    pub generation: u64,
    /// The segment has a put that a newer version in it supersedes.
    pub superseded: bool,
    /// All segments, the new one last.
    pub metas: Vec<SegmentMeta>,
}

/// The segment and the run hold the items.
pub open spec fn holds_items(items: Seq<ItemView>, order: Seq<usize>, locs: Seq<u64>, tables: Seq<TableView>, c: Checkpoint) -> bool {
    &&& segwrite::is_written(items, order, locs, c.image@)
    &&& forall|k: int| 0 <= k < items.len() ==> segwrite::item_fits(#[trigger] items[k])
    &&& c.run.rows() == segwrite::run_rows(items, locs, c.segment, tables, items.len() as int)
}

pub open spec fn is_checkpoint(delta: Seq<(Seq<u8>, Seq<VersionView>)>, tables: Seq<TableView>, version: u64, metas: Seq<SegmentMeta>, c: Checkpoint) -> bool {
    &&& keys_named(delta)
    &&& items_of(delta).len() > 0
    &&& exists|order: Seq<usize>, locs: Seq<u64>| #[trigger] holds_items(items_of(delta), order, locs, tables, c)
    &&& c.run.wf()
    &&& c.run.version() == c.generation
    &&& c.metas@ == metas.push(SegmentMeta { id: c.segment, len: c.image@.len() as u64 })
    &&& c.image@.len() <= usize::MAX
    &&& c.generation == levels::hash_of(levels::generation_bytes(version, c.metas@, tables))
    &&& c.superseded == any_twice(delta, delta.len() as int)
}

/// Why resident versions cannot be written.
pub open spec fn checkpoint_error(delta: Seq<(Seq<u8>, Seq<VersionView>)>, e: ErrorView) -> bool {
    ||| exists|i: int|
        0 <= i < delta.len() && version::key_parts(#[trigger] delta[i].0) is Err && e == ErrorView::Corrupt(
            version::key_parts(delta[i].0)->Err_0,
        )
    ||| e == segwrite::too_long() && exists|k: int|
        0 <= k < items_of(delta).len() && !segwrite::item_fits(#[trigger] items_of(delta)[k])
}

pub fn copy_metas(metas: &Vec<SegmentMeta>) -> (r: Vec<SegmentMeta>)
    ensures
        r@ == metas@,
{
    let mut out: Vec<SegmentMeta> = Vec::new();
    let mut i: usize = 0;
    while i < metas.len()
        invariant
            i <= metas@.len(),
            out@ == metas@.subrange(0, i as int),
        decreases metas@.len() - i,
    {
        out.push(metas[i]);
        assert(metas@.subrange(0, i + 1) =~= metas@.subrange(0, i as int).push(metas@[i as int]));
        i = i + 1;
    }
    assert(out@ =~= metas@);
    out
}

/// Write the resident versions of a delta into one segment, in the order of
/// their versions, and make the run that finds them. There is nothing to write
/// where the delta has no resident version.
pub fn write_checkpoint(
    delta: &PrimaryDelta,
    catalog: &Catalog,
    version: u64,
    metas: &Vec<SegmentMeta>,
    segment: u32,
) -> (r: Result<Option<Checkpoint>, Error>)
    requires
        delta.wf(),
    ensures
        match r {
            Ok(Some(c)) => is_checkpoint(delta.pairs(), catalog@, version, metas@, c) && c.segment == segment,
            Ok(None) => keys_named(delta.pairs()) && items_of(delta.pairs()).len() == 0,
            Err(e) => checkpoint_error(delta.pairs(), e@),
        },
{
    let Drained { items, superseded } = match drain_resident(delta) {
        Ok(d) => d,
        Err(e) => {
            return Err(e);
        },
    };
    let ghost s = delta.pairs();
    let ghost v = model::views(items@);
    let count: usize = items.len();
    if count == 0 {
        return Ok(None);
    }
    let order = version_order(&items);
    let (image, locs) = match write_items(&items, &order) {
        Ok(done) => done,
        Err(e) => {
            proof {
                let k = choose|k: int| 0 <= k < order@.len() && !segwrite::item_fits(v[#[trigger] order@[k] as int]);
                assert(!segwrite::item_fits(items_of(s)[order@[k] as int]));
            }
            return Err(e);
        },
    };
    proof {
        assert forall|i: int| 0 <= i < v.len() implies segwrite::located_at(#[trigger] v[i], locs@[i], image@)
            && segwrite::item_fits(v[i]) by {
            segwrite::lemma_order_reaches(v.len() as int, order@, i);
            let k = order@.index_of(i as usize);
            assert(order@[k] == i as usize);
        }
        assert(order@.len() == v.len()) by {
            segwrite::lemma_order_reaches(v.len() as int, order@, 0);
        }
        assert forall|i: int| 0 <= i < items@.len() implies segwrite::item_fits((#[trigger] items@[i])@) by {
            assert(v[i] == items@[i]@);
        }
        delta.lemma_wf();
        lemma_delta_items(s, s.len() as int);
        segwrite::lemma_rows_in_order(v, locs@, segment, catalog@, v.len() as int);
    }
    let rows = make_run_rows(&items, &locs, segment, catalog);
    let mut all = copy_metas(metas);
    let length: usize = image.len();
    all.push(SegmentMeta { id: segment, len: length as u64 });
    let generation: u64 = primary_generation(version, &all, catalog);
    let run = PagedIndex::from_rows(rows, generation);
    let c = Checkpoint { segment, image: Arc::new(image), run, generation, superseded, metas: all };
    assert(holds_items(items_of(s), order@, locs@, catalog@, c));
    Ok(Some(c))
}

// ---- Taking a checkpoint over -----------------------------------------------

/// The file and the level of a new run. The first run is the base.
pub fn run_name(first: bool, unique: &str) -> (r: (String, u8))
    ensures
        first ==> r.0@ == "primary.pidx"@ && r.1 == PRIMARY_BASE_LEVEL,
        !first ==> r.0@ == "primary-L0-"@ + unique@ + ".pidx.run"@ && r.1 == 0,
{
    if first {
        ("primary.pidx".to_owned(), PRIMARY_BASE_LEVEL)
    } else {
        ("primary-L0-".to_owned().concat(unique).concat(".pidx.run"), 0)
    }
}

/// The state with a checkpoint taken over: the versions that it wrote are no
/// longer resident, and its segment and its run are there.
pub open spec fn taken_over(before: &State, after: &State, c: Checkpoint, meta: RunMetaView, superseded: bool, keep_run: bool) -> bool {
    &&& after.catalog == before.catalog
    &&& after.committed_version == before.committed_version
    &&& after.high_ids == before.high_ids
    &&& after.secondary == before.secondary
    &&& after.identities == before.identities
    &&& after.blobs == before.blobs
    &&& after.metas@ == c.metas@
    &&& after.next_segment_id == c.segment + 1
    &&& model::views(after.segments@) == model::views(before.segments@).push(
        segment::SegmentView { id: c.segment, image: c.image@ },
    )
    &&& forall|x: u32| #[trigger] after.superseded@.contains(x) <==> before.superseded@.contains(x) || (superseded && x == c.segment)
    &&& after.index.wf()
    &&& after.index.generation == c.generation
    &&& if keep_run {
        &&& after.index.runs@.len() == before.index.runs@.len() + 1
        &&& after.index.runs@.drop_last() == before.index.runs@
        &&& after.index.runs@.last().meta@ == meta
        &&& after.index.runs@.last().index.rows() == c.run.rows()
    } else {
        after.index.runs@ == before.index.runs@
    }
}

impl State {
    /// A segment joins the store.
    pub fn take_segment(&mut self, segment: u32, image: Arc<Vec<u8>>, metas: Vec<SegmentMeta>, superseded: bool)
        requires
            segment < u32::MAX,
        ensures
            *final(self) == (State {
                segments: final(self).segments,
                metas: metas,
                next_segment_id: (segment + 1) as u32,
                superseded: final(self).superseded,
                ..*old(self)
            }),
            model::views(final(self).segments@) == model::views(old(self).segments@).push(
                segment::SegmentView { id: segment, image: image@ },
            ),
            forall|x: u32| #[trigger] final(self).superseded@.contains(x) <==> old(self).superseded@.contains(x) || (superseded && x
                == segment),
    {
        let ghost before = self.segments@;
        let ghost sup = self.superseded@;
        self.segments.push(Segment { id: segment, image });
        assert(model::views(self.segments@) =~= model::views(before).push(segment::SegmentView { id: segment, image: image@ }));
        self.metas = metas;
        self.next_segment_id = segment + 1;
        if superseded {
            self.superseded.push(segment);
            proof {
                let now = self.superseded@;
                assert forall|x: u32| #[trigger] now.contains(x) <==> sup.contains(x) || x == segment by {
                    if sup.contains(x) {
                        assert(now[sup.index_of(x)] == x);
                    }
                    if x == segment {
                        assert(now[sup.len() as int] == x);
                    }
                    if now.contains(x) {
                        let k = now.index_of(x);
                        if k < sup.len() {
                            assert(sup[k] == x);
                        }
                    }
                }
            }
        }
    }

    /// A run joins the primary index.
    pub fn take_run(&mut self, run: PagedIndex, meta: RunMeta)
        requires
            old(self).index.wf(),
            run.wf(),
        ensures
            *final(self) == (State { index: final(self).index, ..*old(self) }),
            final(self).index == (PrimaryIdx { runs: final(self).index.runs, ..old(self).index }),
            final(self).index.wf(),
            final(self).index.runs@.len() == old(self).index.runs@.len() + 1,
            final(self).index.runs@.drop_last() == old(self).index.runs@,
            final(self).index.runs@.last().meta@ == meta@,
            final(self).index.runs@.last().index.rows() == run.rows(),
    {
        let ghost before = self.index.runs@;
        self.index.runs.push(Run { meta, index: Arc::new(run) });
        proof {
            assert(self.index.runs@.drop_last() =~= before);
            assert forall|i: int| 0 <= i < self.index.runs@.len() implies (#[trigger] self.index.runs@[i]).index.wf() by {
                if i < before.len() {
                    assert(self.index.runs@[i] == before[i]);
                }
            }
        }
    }

    /// Take over a checkpoint of all resident versions. The run is dropped where
    /// it has no row.
    pub fn adopt_checkpoint(&mut self, c: Checkpoint, file: String, level: u8, bytes: u64)
        requires
            old(self).index.wf(),
            old(self).index.frozen is None,
            c.run.wf(),
            c.segment < u32::MAX,
        ensures
            taken_over(
                old(self),
                final(self),
                c,
                RunMetaView { file: file@, level, bytes, generation: c.generation },
                c.superseded,
                c.run.rows().len() > 0,
            ),
            final(self).index.delta@ == Map::<Seq<u8>, Seq<VersionView>>::empty(),
            final(self).index.frozen is None,
    {
        let Checkpoint { segment, image, run, generation, superseded, metas } = c;
        self.take_segment(segment, image, metas, superseded);
        self.index.delta.clear();
        self.index.generation = generation;
        if run.len() > 0 {
            self.take_run(run, RunMeta { file, level, bytes, generation });
        }
    }

    // ---- Freezing -----------------------------------------------------------

    /// Set the resident versions aside for a checkpoint in the background. It is
    /// not done while one runs, while vectors wait to be indexed, or where there
    /// is nothing to write.
    pub fn schedule_frozen_checkpoint(&mut self, status: &mut BackgroundStatus, vector_backlog: u64, ticket: u64) -> (r: bool)
        requires
            old(self).index.wf(),
        ensures
            ({
                let idle = vector_backlog == 0 && !old(status).running && old(self).index.frozen is None;
                &&& r == (idle && old(self).index.delta.pairs().len() > 0)
                &&& !r ==> *final(self) == *old(self) && *final(status) == *old(status)
                &&& r ==> *final(self) == (State { index: final(self).index, ..*old(self) }) && final(status).running
                    && !final(status).commit_unknown && final(status).last_error == old(status).last_error
                &&& r ==> final(self).index.wf() && final(self).index.generation == old(self).index.generation
                    && final(self).index.runs == old(self).index.runs && final(self).index.delta@ == Map::<
                    Seq<u8>,
                    Seq<VersionView>,
                >::empty() && (final(self).index.frozen matches Some(f) && f.version == old(self).committed_version && f.ticket
                    == ticket && f.delta == old(self).index.delta)
            }),
    {
        if vector_backlog > 0 || status.running {
            return false;
        }
        if self.index.frozen.is_some() || self.index.delta.is_empty() {
            return false;
        }
        let mut taken: PrimaryDelta = CowMap::new();
        std::mem::swap(&mut taken, &mut self.index.delta);
        self.index.frozen = Some(FrozenPrimary { version: self.committed_version, ticket, delta: taken });
        status.commit_unknown = false;
        status.running = true;
        true
    }

    /// Whether a freeze still stands.
    pub open spec fn froze(&self, version: u64, ticket: u64) -> bool {
        self.index.frozen matches Some(f) && f.version == version && f.ticket == ticket
    }

    pub fn still_frozen(&self, version: u64, ticket: u64) -> (r: bool)
        ensures
            r == self.froze(version, ticket),
    {
        match &self.index.frozen {
            Some(f) => f.version == version && f.ticket == ticket,
            None => false,
        }
    }

    /// Take over a checkpoint of the versions that a freeze set aside.
    pub fn adopt_frozen(&mut self, version: u64, ticket: u64, c: Checkpoint, file: String, level: u8, bytes: u64) -> (r: Result<(), Error>)
        requires
            old(self).index.wf(),
            c.run.wf(),
            c.segment < u32::MAX,
        ensures
            r is Ok <==> old(self).froze(version, ticket),
            r matches Err(e) ==> *final(self) == *old(self) && e@ == ErrorView::Corrupt(
                "background checkpoint lost its frozen generation before adoption"@,
            ),
            r is Ok ==> taken_over(
                old(self),
                final(self),
                c,
                RunMetaView { file: file@, level, bytes, generation: c.generation },
                c.superseded || shares_key(old(self).index.delta@, old(self).index.frozen_map()),
                true,
            ) && final(self).index.delta == old(self).index.delta && final(self).index.frozen is None,
    {
        if !self.still_frozen(version, ticket) {
            return Err(corrupt("background checkpoint lost its frozen generation before adoption"));
        }
        let Checkpoint { segment, image, run, generation, superseded, metas } = c;
        let again: bool = superseded || match &self.index.frozen {
            Some(f) => any_shared(&self.index.delta, &f.delta),
            None => false,
        };
        self.take_segment(segment, image, metas, again);
        self.index.frozen = None;
        self.index.generation = generation;
        self.take_run(run, RunMeta { file, level, bytes, generation });
        Ok(())
    }

    /// Give the versions that a freeze set aside back to the active ones, after
    /// a checkpoint that was not published.
    pub fn thaw_frozen_checkpoint(&mut self)
        requires
            old(self).index.wf(),
        ensures
            *final(self) == (State { index: final(self).index, ..*old(self) }),
            final(self).index.wf(),
            final(self).index.generation == old(self).index.generation,
            final(self).index.runs == old(self).index.runs,
            final(self).index.frozen is None,
            merged_back(old(self).index.delta@, old(self).index.frozen_map(), final(self).index.delta@),
    {
        let ghost start = self.index.delta@;
        match self.index.frozen.take() {
            None => {
                assert(merged_back(start, Map::empty(), start));
            },
            Some(f) => {
                let FrozenPrimary { version: _, ticket: _, delta } = f;
                let list = delta.iter();
                let ghost s = delta.pairs();
                proof {
                    delta.lemma_wf();
                }
                let mut i: usize = 0;
                assert(merged_upto(start, s, 0, start));
                while i < list.len()
                    invariant
                        cow::entry_pairs(list@) == s,
                        pairs::sorted(s),
                        i <= list@.len(),
                        *self == (State { index: self.index, ..*old(self) }),
                        self.index.generation == old(self).index.generation,
                        self.index.runs == old(self).index.runs,
                        self.index.frozen is None,
                        self.index.wf(),
                        merged_upto(start, s, i as int, self.index.delta@),
                    decreases list@.len() - i,
                {
                    let pair = list[i];
                    assert(s[i as int] == (pair.0@, pair.1@)) by {
                        assert(cow::entry_pairs(list@)[i as int] == (pair.0.rank(), pair.1@));
                    }
                    let ghost now = self.index.delta@;
                    let ghost key = s[i as int].0;
                    let mut joined: Vec<VersionEntry> = match self.index.delta.get(pair.0.as_slice()) {
                        Some(v) => model::copy_all(&v.list),
                        None => Vec::new(),
                    };
                    let ghost active = model::views(joined@);
                    let mut more = model::copy_all(&pair.1.list);
                    let ghost tail = model::views(more@);
                    proof {
                        assert(now.contains_key(key) == start.contains_key(key) && (now.contains_key(key) ==> now[key] == start[key])) by {
                            assert forall|p: int| 0 <= p < i implies s[p].0 != key by {
                                if s[p].0 == key {
                                    pairs::lemma_key_unique(s, p, i as int);
                                }
                            }
                        }
                        assert(active =~= primary::resident(start, key));
                        assert(tail =~= s[i as int].1);
                    }
                    let ghost a = joined@;
                    let ghost b = more@;
                    joined.append(&mut more);
                    assert(model::views(joined@) =~= active + tail);
                    let merged = group_versions(joined);
                    let value = Versions { list: merged };
                    let ghost result = value@;
                    let _ = self.index.delta.insert(bytes::copy_of(pair.0.as_slice()), value);
                    proof {
                        assert(self.index.delta@ == now.insert(key, result));
                        lemma_merged_step(start, s, i as int, now, self.index.delta@);
                    }
                    i = i + 1;
                }
                proof {
                    lemma_merged_all(start, s, self.index.delta@);
                }
            },
        }
    }
}

// ---- Keys of two deltas -----------------------------------------------------

pub open spec fn shares_key(a: Map<Seq<u8>, Seq<VersionView>>, b: Map<Seq<u8>, Seq<VersionView>>) -> bool {
    exists|k: Seq<u8>| #[trigger] a.contains_key(k) && b.contains_key(k)
}

fn any_shared(a: &PrimaryDelta, b: &PrimaryDelta) -> (r: bool)
    requires
        a.wf(),
        b.wf(),
    ensures
        r == shares_key(a@, b@),
{
    let keys = a.keys();
    let ghost s = a.pairs();
    proof {
        a.lemma_wf();
    }
    let mut i: usize = 0;
    while i < keys.len()
        invariant
            b.wf(),
            s == a.pairs(),
            pairs::sorted(s),
            i <= keys@.len(),
            keys@.len() == s.len(),
            forall|j: int| 0 <= j < keys@.len() ==> (#[trigger] keys@[j]).rank() == s[j].0,
            forall|j: int| 0 <= j < i ==> !b@.contains_key(#[trigger] s[j].0),
        decreases keys@.len() - i,
    {
        assert(keys@[i as int]@ == s[i as int].0);
        if b.contains_key(keys[i].as_slice()) {
            proof {
                pairs::lemma_to_map_at(s, i as int);
                assert(a@.contains_key(s[i as int].0));
            }
            return true;
        }
        i = i + 1;
    }
    proof {
        if shares_key(a@, b@) {
            let k = choose|k: Seq<u8>| #[trigger] a@.contains_key(k) && b@.contains_key(k);
            assert(pairs::has_key(s, k));
            let j = choose|j: int| 0 <= j < s.len() && #[trigger] s[j].0 == k;
            assert(!b@.contains_key(s[j].0));
        }
    }
    false
}

/// What a thawed record holds: its frozen and its active versions, each once.
pub open spec fn merged_back(
    active: Map<Seq<u8>, Seq<VersionView>>,
    frozen: Map<Seq<u8>, Seq<VersionView>>,
    after: Map<Seq<u8>, Seq<VersionView>>,
) -> bool {
    forall|key: Seq<u8>| #[trigger] merged_at(active, frozen, after, key)
}

pub open spec fn merged_at(
    active: Map<Seq<u8>, Seq<VersionView>>,
    frozen: Map<Seq<u8>, Seq<VersionView>>,
    after: Map<Seq<u8>, Seq<VersionView>>,
    key: Seq<u8>,
) -> bool {
    &&& after.contains_key(key) <==> active.contains_key(key) || frozen.contains_key(key)
    &&& if frozen.contains_key(key) {
        primary::is_group(primary::resident(after, key), primary::resident(active, key) + frozen[key])
    } else {
        primary::resident(after, key) == primary::resident(active, key)
    }
}

spec fn merged_upto(
    active: Map<Seq<u8>, Seq<VersionView>>,
    s: Seq<(Seq<u8>, Seq<VersionView>)>,
    n: int,
    after: Map<Seq<u8>, Seq<VersionView>>,
) -> bool {
    &&& forall|p: int| 0 <= p < n ==> after.contains_key(#[trigger] s[p].0) && primary::is_group(
        after[s[p].0],
        primary::resident(active, s[p].0) + s[p].1,
    )
    &&& forall|key: Seq<u8>|
        (forall|p: int| 0 <= p < n ==> #[trigger] s[p].0 != key) ==> (#[trigger] after.contains_key(key) <==> active.contains_key(key))
            && (after.contains_key(key) ==> after[key] == active[key])
}

proof fn lemma_merged_step(
    active: Map<Seq<u8>, Seq<VersionView>>,
    s: Seq<(Seq<u8>, Seq<VersionView>)>,
    i: int,
    now: Map<Seq<u8>, Seq<VersionView>>,
    after: Map<Seq<u8>, Seq<VersionView>>,
)
    requires
        0 <= i < s.len(),
        pairs::sorted(s),
        merged_upto(active, s, i, now),
        after.contains_key(s[i].0),
        after == now.insert(s[i].0, after[s[i].0]),
        primary::is_group(after[s[i].0], primary::resident(active, s[i].0) + s[i].1),
    ensures
        merged_upto(active, s, i + 1, after),
{
    assert forall|p: int| 0 <= p < i + 1 implies after.contains_key(#[trigger] s[p].0) && primary::is_group(
        after[s[p].0],
        primary::resident(active, s[p].0) + s[p].1,
    ) by {
        if p < i {
            if s[p].0 == s[i].0 {
                pairs::lemma_key_unique(s, p, i);
            }
            assert(now.contains_key(s[p].0));
        }
    }
    assert forall|key: Seq<u8>| (forall|p: int| 0 <= p < i + 1 ==> #[trigger] s[p].0 != key) implies (#[trigger] after.contains_key(key)
        <==> active.contains_key(key)) && (after.contains_key(key) ==> after[key] == active[key]) by {
        assert(s[i].0 != key);
        assert forall|p: int| 0 <= p < i implies #[trigger] s[p].0 != key by {}
        assert(now.contains_key(key) <==> active.contains_key(key));
    }
}

proof fn lemma_merged_all(active: Map<Seq<u8>, Seq<VersionView>>, s: Seq<(Seq<u8>, Seq<VersionView>)>, after: Map<Seq<u8>, Seq<VersionView>>)
    requires
        pairs::sorted(s),
        merged_upto(active, s, s.len() as int, after),
    ensures
        merged_back(active, pairs::to_map(s), after),
{
    let frozen = pairs::to_map(s);
    assert forall|key: Seq<u8>| #[trigger] merged_at(active, frozen, after, key) by {
        if pairs::has_key(s, key) {
            let p = pairs::index_of(s, key);
            pairs::lemma_to_map_at(s, p);
            assert(after.contains_key(s[p].0));
        } else {
            assert forall|p: int| 0 <= p < s.len() implies #[trigger] s[p].0 != key by {}
            assert(after.contains_key(key) <==> active.contains_key(key));
        }
    }
}

// ---- Decisions of a checkpoint in the background ----------------------------

/// The ids of the two logs that follow a log: one that bridges to the new
/// manifest, and one that commits go to meanwhile.
pub fn successor_wals(wal_id: u32) -> (r: Result<(u32, u32), Error>)
    ensures
        r is Ok <==> wal_id + 2 <= u32::MAX,
        r matches Ok(ids) ==> ids.0 == wal_id + 1 && ids.1 == wal_id + 2,
        r matches Err(e) ==> e@ == ErrorView::Corrupt("WAL id exhausted during checkpoint"@),
{
    if wal_id > u32::MAX - 2 {
        return Err(corrupt("WAL id exhausted during checkpoint"));
    }
    Ok((wal_id + 1, wal_id + 2))
}

/// Before the log is switched: it must still be the one that the freeze saw, and
/// the freeze must stand. The result is how much of the log came after it.
pub fn check_handover(
    st: &State,
    version: u64,
    ticket: u64,
    wal_id: u32,
    wal_cutoff: u64,
    current_id: u32,
    current_len: u64,
) -> (r: Result<u64, Error>)
    ensures
        ({
            let same_log = current_id == wal_id && current_len >= wal_cutoff;
            &&& r is Ok <==> same_log && st.froze(version, ticket)
            &&& r matches Ok(tail) ==> tail == current_len - wal_cutoff
            &&& r matches Err(e) ==> e@ == ErrorView::Corrupt(
                if same_log {
                    "background checkpoint lost its frozen generation"@
                } else {
                    "background checkpoint observed an unexpected WAL generation"@
                },
            )
        }),
{
    if current_id != wal_id || current_len < wal_cutoff {
        return Err(corrupt("background checkpoint observed an unexpected WAL generation"));
    }
    if !st.still_frozen(version, ticket) {
        return Err(corrupt("background checkpoint lost its frozen generation"));
    }
    Ok(current_len - wal_cutoff)
}

/// What a checkpoint of all resident versions comes to.
pub enum CheckpointStep {
    /// Nothing was committed since the last one.
    Nothing,
    /// Only the log is to be replaced.
    Rotate,
    Write(Checkpoint),
}

/// Prepare a checkpoint of all resident versions.
pub fn checkpoint_locked(st: &State, read_only: bool, wal_len: u64) -> (r: Result<CheckpointStep, Error>)
    requires
        st.index.wf(),
    ensures
        read_only ==> r is Err && r->Err_0@ == ErrorView::ReadOnly,
        !read_only ==> match r {
            Err(e) => checkpoint_error(st.index.delta.pairs(), e@),
            Ok(CheckpointStep::Nothing) => items_of(st.index.delta.pairs()).len() == 0 && wal_len == 0,
            Ok(CheckpointStep::Rotate) => items_of(st.index.delta.pairs()).len() == 0 && wal_len > 0,
            Ok(CheckpointStep::Write(c)) => is_checkpoint(
                st.index.delta.pairs(),
                st.catalog@,
                st.committed_version,
                st.metas@,
                c,
            ) && c.segment == st.next_segment_id,
        },
{
    if read_only {
        return Err(Error::ReadOnly);
    }
    match write_checkpoint(&st.index.delta, &st.catalog, st.committed_version, &st.metas, st.next_segment_id) {
        Err(e) => Err(e),
        Ok(Some(c)) => Ok(CheckpointStep::Write(c)),
        Ok(None) => {
            if wal_len == 0 {
                Ok(CheckpointStep::Nothing)
            } else {
                Ok(CheckpointStep::Rotate)
            }
        },
    }
}

/// Write the versions that a freeze set aside. There is nothing to do where the
/// freeze no longer stands or holds no resident version.
pub fn flush_frozen_checkpoint(st: &State, version: u64, ticket: u64) -> (r: Result<Option<Checkpoint>, Error>)
    requires
        st.index.wf(),
    ensures
        !st.froze(version, ticket) ==> r is Err && r->Err_0@ == ErrorView::Corrupt(
            "background checkpoint lost its frozen generation"@,
        ),
        st.froze(version, ticket) ==> match r {
            Ok(Some(c)) => is_checkpoint(st.index.frozen->0.delta.pairs(), st.catalog@, version, st.metas@, c) && c.segment
                == st.next_segment_id,
            Ok(None) => items_of(st.index.frozen->0.delta.pairs()).len() == 0,
            Err(e) => checkpoint_error(st.index.frozen->0.delta.pairs(), e@),
        },
{
    if !st.still_frozen(version, ticket) {
        return Err(corrupt("background checkpoint lost its frozen generation"));
    }
    match &st.index.frozen {
        Some(f) => write_checkpoint(&f.delta, &st.catalog, version, &st.metas, st.next_segment_id),
        None => Ok(None),
    }
}

} // verus!
