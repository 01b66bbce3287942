//! Compaction: every segment is rewritten into one, with the versions that
//! some reader can still see. A schema change may ride along.

use crate::bytes::{self, Place};
use crate::cow::{self, CowMap, CowSet};
use crate::ddl::{self, Rewrite, RewriteView};
use crate::error::{Error, ErrorView};
use crate::levels::{self, primary_generation, SegmentMeta};
use crate::model;
use crate::order::{Datum, OrderedKey};
use crate::paged::{self, PagedIndex};
use crate::pairs;
use crate::payload::{self, scan_payload_blob_refs, transform_payload};
use crate::primary::{PrimaryIdx, RunMetaView, PRIMARY_BASE_LEVEL};
use crate::record::Blobs;
use crate::schema::{self, Catalog, TableView};
use crate::segment::{self, payload_bytes, Segment, SegmentView};
use crate::segwrite::{self, make_run_rows, same_order, write_items, ItemView, SegItem};
use crate::state::{SecSlot, State};
use crate::value::StoredView;
use crate::version::{self, primary_key, VersionEntry, VersionView};
use crate::visit::{self, Group, GroupView};
use std::sync::Arc;
use vstd::prelude::*;
use vstd::utf8::*;

verus! {

// ---- Which versions stay ----------------------------------------------------

/// The version that a reader at `mark` sees is at `i`.
pub open spec fn chosen_at(vs: Seq<VersionView>, mark: u64, epoch: u64, i: int) -> bool {
    &&& 0 <= i < vs.len()
    &&& epoch < vs[i].version <= mark
    &&& forall|k: int| i < k < vs.len() ==> !(epoch < (#[trigger] vs[k]).version <= mark)
}

/// Some reader sees the version at `i`.
pub open spec fn selected(vs: Seq<VersionView>, marks: Seq<u64>, epoch: u64, i: int) -> bool {
    exists|m: int| 0 <= m < marks.len() && chosen_at(vs, #[trigger] marks[m], epoch, i)
}

pub open spec fn selected_put(vs: Seq<VersionView>, marks: Seq<u64>, epoch: u64, i: int) -> bool {
    selected(vs, marks, epoch, i) && !vs[i].kind.is_tombstone()
}

/// The version at `i` stays: some reader sees it, and a deletion has something
/// before it to delete.
pub open spec fn retained(vs: Seq<VersionView>, marks: Seq<u64>, epoch: u64, i: int) -> bool {
    &&& selected(vs, marks, epoch, i)
    &&& vs[i].kind.is_tombstone() ==> exists|j: int| 0 <= j < i && #[trigger] selected_put(vs, marks, epoch, j)
}

pub open spec fn any_selected(vs: Seq<VersionView>, marks: Seq<u64>, epoch: u64) -> bool {
    exists|i: int| 0 <= i < vs.len() && #[trigger] selected(vs, marks, epoch, i)
}

/// A put that stays has a newer version that stays.
pub open spec fn keeps_superseded(vs: Seq<VersionView>, marks: Seq<u64>, epoch: u64) -> bool {
    exists|i: int, j: int| 0 <= i < j < vs.len() && #[trigger] selected_put(vs, marks, epoch, i) && #[trigger] selected(
        vs,
        marks,
        epoch,
        j,
    )
}

fn find_chosen(versions: &Vec<VersionEntry>, mark: u64, epoch: u64) -> (r: Option<usize>)
    ensures
        r matches Some(i) ==> chosen_at(model::views(versions@), mark, epoch, i as int),
        r is None ==> forall|i: int| !#[trigger] chosen_at(model::views(versions@), mark, epoch, i),
{
    let ghost vs = model::views(versions@);
    let mut i: usize = versions.len();
    while i > 0
        invariant
            vs == model::views(versions@),
            i <= versions@.len(),
            forall|k: int| i <= k < vs.len() ==> !(epoch < (#[trigger] vs[k]).version <= mark),
        decreases i,
    {
        let v: u64 = versions[i - 1].version;
        assert(vs[i - 1].version == v);
        if v <= mark && v > epoch {
            return Some(i - 1);
        }
        i = i - 1;
    }
    None
}

/// Which versions some reader sees.
pub fn select_versions(versions: &Vec<VersionEntry>, marks: &Vec<u64>, epoch: u64) -> (r: Vec<bool>)
    ensures
        r@.len() == versions@.len(),
        forall|i: int| 0 <= i < r@.len() ==> #[trigger] r@[i] == selected(model::views(versions@), marks@, epoch, i),
{
    let ghost vs = model::views(versions@);
    let mut flags: Vec<bool> = Vec::new();
    let mut i: usize = 0;
    while i < versions.len()
        invariant
            i <= versions@.len(),
            flags@.len() == i,
            forall|k: int| 0 <= k < i ==> !#[trigger] flags@[k],
        decreases versions@.len() - i,
    {
        flags.push(false);
        i = i + 1;
    }
    let mut m: usize = 0;
    assert(marks@.subrange(0, 0) =~= Seq::<u64>::empty());
    while m < marks.len()
        invariant
            vs == model::views(versions@),
            m <= marks@.len(),
            flags@.len() == versions@.len(),
            forall|k: int| 0 <= k < flags@.len() ==> #[trigger] flags@[k] == selected(vs, marks@.subrange(0, m as int), epoch, k),
        decreases marks@.len() - m,
    {
        let ghost before = flags@;
        let ghost a = marks@.subrange(0, m as int);
        let ghost b = marks@.subrange(0, m + 1);
        let found = find_chosen(versions, marks[m], epoch);
        match found {
            Some(at) => {
                flags.set(at, true);
            },
            None => {},
        }
        proof {
            assert forall|k: int| 0 <= k < flags@.len() implies #[trigger] flags@[k] == selected(vs, b, epoch, k) by {
                if selected(vs, a, epoch, k) {
                    let x = choose|x: int| 0 <= x < a.len() && chosen_at(vs, #[trigger] a[x], epoch, k);
                    assert(b[x] == a[x]);
                }
                if selected(vs, b, epoch, k) {
                    let x = choose|x: int| 0 <= x < b.len() && chosen_at(vs, #[trigger] b[x], epoch, k);
                    if x < m {
                        assert(a[x] == b[x]);
                    } else {
                        assert(chosen_at(vs, marks@[m as int], epoch, k));
                        if found is Some {
                            let at = found->0 as int;
                            if at < k {
                                assert(!(epoch < vs[k].version <= marks@[m as int]));
                            } else if k < at {
                                assert(!(epoch < vs[at].version <= marks@[m as int]));
                            }
                        }
                    }
                }
                if found is Some && found->0 == k {
                    assert(b[m as int] == marks@[m as int]);
                }
                assert(before[k] == selected(vs, a, epoch, k));
            }
        }
        m = m + 1;
    }
    assert(marks@.subrange(0, m as int) =~= marks@);
    flags
}

// ---- Rewriting one record ---------------------------------------------------

/// A version of a record as it is written.
pub open spec fn new_item(out: Seq<char>, id: Seq<u8>, version: u64, payload: Option<Seq<u8>>) -> ItemView {
    ItemView { key: version::key_of(encode_utf8(out), id), table: out, id: decode_utf8(id), version, payload }
}

/// The payload that is written for a version.
pub open spec fn new_payload(images: Seq<SegmentView>, rw: RewriteView, table: Seq<char>, v: VersionView) -> Result<Option<Seq<u8>>, ErrorView> {
    match segment::payload_of(images, v.kind) {
        Err(e) => Err(e),
        Ok(None) => Ok(None),
        Ok(Some(p)) => match payload::transformed(rw, table, p) {
            Err(m) => Err(ErrorView::Corrupt(m)),
            Ok(q) => Ok(Some(q)),
        },
    }
}

/// What surrounds the rewrite of a table.
#[verifier::ext_equal]
pub struct RewriteOf {
    pub images: Seq<SegmentView>,
    pub rw: RewriteView,
    pub marks: Seq<u64>,
    pub table: Seq<char>,
    pub epoch: u64,
}

impl RewriteOf {
    pub open spec fn out(self) -> Seq<char> {
        ddl::output_name(self.rw, self.table)
    }
}

/// The items of the first `n` versions of a record.
pub open spec fn group_items(w: RewriteOf, g: GroupView, n: int) -> Result<Seq<ItemView>, ErrorView>
    decreases n,
{
    if n <= 0 {
        Ok(Seq::empty())
    } else {
        match group_items(w, g, n - 1) {
            Err(e) => Err(e),
            Ok(s) => if !retained(g.versions, w.marks, w.epoch, n - 1) {
                Ok(s)
            } else {
                match new_payload(w.images, w.rw, w.table, g.versions[n - 1]) {
                    Err(e) => Err(e),
                    Ok(p) => Ok(s.push(new_item(w.out(), g.id, g.versions[n - 1].version, p))),
                }
            },
        }
    }
}

/// The items of the first `n` records.
pub open spec fn table_items(w: RewriteOf, groups: Seq<GroupView>, n: int) -> Result<Seq<ItemView>, ErrorView>
    decreases n,
{
    if n <= 0 {
        Ok(Seq::empty())
    } else {
        match table_items(w, groups, n - 1) {
            Err(e) => Err(e),
            Ok(s) => match group_items(w, groups[n - 1], groups[n - 1].versions.len() as int) {
                Err(e) => Err(e),
                Ok(t) => Ok(s + t),
            },
        }
    }
}

proof fn lemma_group_items_fail(w: RewriteOf, g: GroupView, n: int)
    requires
        0 <= n <= g.versions.len(),
        group_items(w, g, n) is Err,
    ensures
        group_items(w, g, g.versions.len() as int) == group_items(w, g, n),
    decreases g.versions.len() - n,
{
    if n < g.versions.len() {
        lemma_group_items_fail(w, g, n + 1);
    }
}

proof fn lemma_table_items_fail(w: RewriteOf, groups: Seq<GroupView>, n: int)
    requires
        0 <= n <= groups.len(),
        table_items(w, groups, n) is Err,
    ensures
        table_items(w, groups, groups.len() as int) == table_items(w, groups, n),
    decreases groups.len() - n,
{
    if n < groups.len() {
        lemma_table_items_fail(w, groups, n + 1);
    }
}

/// The greatest ids with one more.
pub open spec fn raised(high: Map<Seq<u8>, Seq<char>>, table: Seq<char>, id: Seq<char>) -> Map<Seq<u8>, Seq<char>> {
    let key = encode_utf8(table);
    if !high.contains_key(key) || bytes::lex_lt(encode_utf8(high[key]), encode_utf8(id)) {
        high.insert(key, id)
    } else {
        high
    }
}

/// The greatest ids after the first `n` records of a table.
pub open spec fn table_highs(high: Map<Seq<u8>, Seq<char>>, w: RewriteOf, groups: Seq<GroupView>, n: int) -> Map<Seq<u8>, Seq<char>>
    decreases n,
{
    if n <= 0 {
        high
    } else {
        let h = table_highs(high, w, groups, n - 1);
        if any_selected(groups[n - 1].versions, w.marks, w.epoch) {
            raised(h, w.out(), decode_utf8(groups[n - 1].id))
        } else {
            h
        }
    }
}

pub open spec fn table_superseded(w: RewriteOf, groups: Seq<GroupView>, n: int) -> bool {
    exists|i: int| 0 <= i < n && keeps_superseded((#[trigger] groups[i]).versions, w.marks, w.epoch)
}

fn raise_high(high: &mut CowMap<String, String>, table: &str, id: &str)
    requires
        old(high).wf(),
    ensures
        final(high).wf(),
        final(high)@ == raised(old(high)@, table@, id@),
{
    let above: bool = match high.get(table.as_bytes()) {
        None => true,
        Some(found) => {
            proof {
                bytes::lemma_lex_trichotomy(encode_utf8(found@), encode_utf8(id@));
            }
            match bytes::place(found.as_str().as_bytes(), id.as_bytes()) {
                Place::Before => true,
                _ => false,
            }
        },
    };
    if above {
        let _ = high.insert(table.to_owned(), id.to_owned());
    }
}

/// What was found out while a record was rewritten.
struct GroupDone {
    any: bool,
    superseded: bool,
}

fn rewrite_group(
    segments: &Vec<Segment>,
    rw: &Rewrite<'_>,
    marks: &Vec<u64>,
    table: &str,
    out: &str,
    epoch: u64,
    g: &Group,
    items: &mut Vec<SegItem>,
) -> (r: Result<GroupDone, Error>)
    requires
        payload::rewrite_fits(rw@),
        out@ == ddl::output_name(rw@, table@),
        encode_utf8(out@).len() <= u32::MAX,
    ensures
        ({
            let w = RewriteOf { images: model::views(segments@), rw: rw@, marks: marks@, table: table@, epoch };
            match group_items(w, g@, g@.versions.len() as int) {
                Err(e) => r is Err && r->Err_0@ == e,
                Ok(more) => {
                    &&& r is Ok
                    &&& model::views(final(items)@) == model::views(old(items)@) + more
                    &&& r->Ok_0.any == any_selected(g@.versions, marks@, epoch)
                    &&& r->Ok_0.superseded == keeps_superseded(g@.versions, marks@, epoch)
                },
            }
        }),
{
    let ghost w = RewriteOf { images: model::views(segments@), rw: rw@, marks: marks@, table: table@, epoch };
    let ghost vs = g@.versions;
    let ghost start = model::views(items@);
    let flags = select_versions(&g.versions, marks, epoch);
    proof {
        encode_utf8_decode_utf8(g.id@);
    }
    let mut any: bool = false;
    let mut have_put: bool = false;
    let mut superseded: bool = false;
    let mut i: usize = 0;
    assert(start + Seq::<ItemView>::empty() =~= start);
    while i < g.versions.len()
        invariant
            payload::rewrite_fits(rw@),
            out@ == ddl::output_name(rw@, table@),
            encode_utf8(out@).len() <= u32::MAX,
            w == (RewriteOf { images: model::views(segments@), rw: rw@, marks: marks@, table: table@, epoch }),
            vs == g@.versions,
            vs == model::views(g.versions@),
            decode_utf8(encode_utf8(g.id@)) == g.id@,
            i <= g.versions@.len(),
            flags@.len() == vs.len(),
            forall|k: int| 0 <= k < flags@.len() ==> #[trigger] flags@[k] == selected(vs, marks@, epoch, k),
            group_items(w, g@, i as int) is Ok,
            model::views(items@) == start + group_items(w, g@, i as int)->Ok_0,
            any == exists|k: int| 0 <= k < i && #[trigger] selected(vs, marks@, epoch, k),
            have_put == exists|k: int| 0 <= k < i && #[trigger] selected_put(vs, marks@, epoch, k),
            superseded == exists|a: int, b: int|
                0 <= a < b < i && #[trigger] selected_put(vs, marks@, epoch, a) && #[trigger] selected(vs, marks@, epoch, b),
        decreases g.versions@.len() - i,
    {
        let v = &g.versions[i];
        assert(vs[i as int] == v@);
        let ghost had_put = have_put;
        let ghost had_sup = superseded;
        assert(flags@[i as int] == selected(vs, marks@, epoch, i as int));
        if flags[i] {
            any = true;
            if have_put {
                superseded = true;
            }
            let dead: bool = v.is_tombstone();
            assert(retained(vs, marks@, epoch, i as int) == (!dead || have_put));
            if !dead || have_put {
                let payload: Option<Arc<Vec<u8>>> = match payload_bytes(segments, &v.kind) {
                    Err(e) => {
                        proof {
                            lemma_group_items_fail(w, g@, i + 1);
                        }
                        return Err(e);
                    },
                    Ok(None) => None,
                    Ok(Some(p)) => match transform_payload(rw, table, p) {
                        Err(e) => {
                            proof {
                                lemma_group_items_fail(w, g@, i + 1);
                            }
                            return Err(e);
                        },
                        Ok(q) => Some(Arc::new(q)),
                    },
                };
                let ghost before = items@;
                items.push(
                    SegItem {
                        key: primary_key(out, g.id.as_str()),
                        table: out.to_owned(),
                        id: g.id.clone(),
                        version: v.version,
                        payload,
                    },
                );
                proof {
                    let p = new_payload(w.images, w.rw, w.table, vs[i as int])->Ok_0;
                    let m = new_item(w.out(), g@.id, vs[i as int].version, p);
                    assert(items@.last()@ == m);
                    assert(model::views(items@) =~= model::views(before).push(m));
                    assert(model::views(items@) =~= start + group_items(w, g@, i + 1)->Ok_0);
                }
            }
            if !dead {
                have_put = true;
            }
        }
        proof {
            let sel = selected(vs, marks@, epoch, i as int);
            let put = selected_put(vs, marks@, epoch, i as int);
            assert(superseded == exists|a: int, b: int|
                0 <= a < b < i + 1 && #[trigger] selected_put(vs, marks@, epoch, a) && #[trigger] selected(vs, marks@, epoch, b)) by {
                if exists|a: int, b: int|
                    0 <= a < b < i + 1 && #[trigger] selected_put(vs, marks@, epoch, a) && #[trigger] selected(vs, marks@, epoch, b) {
                    let (a, b) = choose|a: int, b: int|
                        0 <= a < b < i + 1 && #[trigger] selected_put(vs, marks@, epoch, a) && #[trigger] selected(vs, marks@, epoch, b);
                    if b < i {
                        assert(selected_put(vs, marks@, epoch, a) && selected(vs, marks@, epoch, b));
                        assert(had_sup);
                    } else {
                        assert(had_put);
                    }
                }
                if had_sup {
                    let (a, b) = choose|a: int, b: int|
                        0 <= a < b < i && #[trigger] selected_put(vs, marks@, epoch, a) && #[trigger] selected(vs, marks@, epoch, b);
                    assert(b < i + 1);
                }
                if sel && had_put {
                    let a = choose|a: int| 0 <= a < i && #[trigger] selected_put(vs, marks@, epoch, a);
                    assert(selected_put(vs, marks@, epoch, a) && selected(vs, marks@, epoch, i as int));
                }
            }
        }
        i = i + 1;
    }
    proof {
        assert(any == any_selected(vs, marks@, epoch));
        assert(superseded == keeps_superseded(vs, marks@, epoch));
    }
    Ok(GroupDone { any, superseded })
}

/// Where the rewrite of a table began and where it ended.
spec fn table_done(
    st: &State,
    w: RewriteOf,
    groups: Seq<GroupView>,
    before: Seq<ItemView>,
    after: Seq<ItemView>,
    high: Map<Seq<u8>, Seq<char>>,
    high_after: Map<Seq<u8>, Seq<char>>,
    superseded: bool,
) -> bool {
    let n = groups.len() as int;
    &&& st.index.is_listing(encode_utf8(w.table), None, None, groups)
    &&& table_items(w, groups, n) is Ok
    &&& after == before + table_items(w, groups, n)->Ok_0
    &&& high_after == table_highs(high, w, groups, n)
    &&& superseded == table_superseded(w, groups, n)
}

/// The records of a table that keep it from being rewritten.
pub open spec fn items_fault(st: &State, w: RewriteOf, groups: Seq<GroupView>, e: ErrorView) -> bool {
    &&& st.index.is_listing(encode_utf8(w.table), None, None, groups)
    &&& table_items(w, groups, groups.len() as int) == Err::<Seq<ItemView>, ErrorView>(e)
}

/// Why a table cannot be rewritten.
pub open spec fn table_fault(st: &State, w: RewriteOf, e: ErrorView) -> bool {
    ||| exists|key: Seq<u8>, m: Seq<char>| #[trigger] st.index.is_fault(encode_utf8(w.table), key, m) && e == ErrorView::Corrupt(m)
    ||| exists|groups: Seq<GroupView>| #[trigger] items_fault(st, w, groups, e)
}

/// Rewrite the records of one table.
fn rewrite_table(
    st: &State,
    rw: &Rewrite<'_>,
    marks: &Vec<u64>,
    table: &str,
    epoch: u64,
    items: &mut Vec<SegItem>,
    high: &mut CowMap<String, String>,
) -> (r: Result<bool, Error>)
    requires
        st.wf(),
        payload::rewrite_fits(rw@),
        encode_utf8(table@).len() <= u32::MAX,
        encode_utf8(ddl::output_name(rw@, table@)).len() <= u32::MAX,
        old(high).wf(),
    ensures
        final(high).wf(),
        ({
            let w = RewriteOf { images: st.images(), rw: rw@, marks: marks@, table: table@, epoch };
            match r {
                Ok(superseded) => exists|groups: Seq<GroupView>|
                    #[trigger] table_done(
                        st,
                        w,
                        groups,
                        model::views(old(items)@),
                        model::views(final(items)@),
                        old(high)@,
                        final(high)@,
                        superseded,
                    ),
                Err(e) => table_fault(st, w, e@),
            }
        }),
{
    let ghost w = RewriteOf { images: st.images(), rw: rw@, marks: marks@, table: table@, epoch };
    let ghost start = model::views(items@);
    let ghost first = high@;
    let out = rw.output_table(table);
    let list = match st.index.visit_table(table, None, None) {
        Ok(list) => list,
        Err(e) => {
            return Err(e);
        },
    };
    let ghost groups = model::views(list@);
    assert(visit::text_bytes(None::<&str>) == None::<Seq<u8>>);
    let mut superseded: bool = false;
    let mut i: usize = 0;
    assert(start + Seq::<ItemView>::empty() =~= start);
    while i < list.len()
        invariant
            payload::rewrite_fits(rw@),
            encode_utf8(out@).len() <= u32::MAX,
            out@ == ddl::output_name(rw@, table@),
            w == (RewriteOf { images: st.images(), rw: rw@, marks: marks@, table: table@, epoch }),
            groups == model::views(list@),
            st.index.is_listing(encode_utf8(w.table), None, None, groups),
            i <= list@.len(),
            high.wf(),
            table_items(w, groups, i as int) is Ok,
            model::views(items@) == start + table_items(w, groups, i as int)->Ok_0,
            high@ == table_highs(first, w, groups, i as int),
            superseded == table_superseded(w, groups, i as int),
        decreases list@.len() - i,
    {
        let g = &list[i];
        assert(groups[i as int] == g@);
        let ghost had = superseded;
        let ghost before = model::views(items@);
        let done = match rewrite_group(&st.segments, rw, marks, table, out.as_str(), epoch, g, items) {
            Ok(done) => done,
            Err(e) => {
                proof {
                    lemma_table_items_fail(w, groups, i + 1);
                    assert(items_fault(st, w, groups, e@));
                }
                return Err(e);
            },
        };
        proof {
            let more = group_items(w, g@, g@.versions.len() as int)->Ok_0;
            assert(model::views(items@) =~= start + table_items(w, groups, i + 1)->Ok_0);
            encode_utf8_decode_utf8(g.id@);
        }
        if done.any {
            raise_high(high, out.as_str(), g.id.as_str());
        }
        if done.superseded {
            superseded = true;
        }
        proof {
            if had {
                let k = choose|k: int| 0 <= k < i && keeps_superseded((#[trigger] groups[k]).versions, w.marks, w.epoch);
                assert(k < i + 1 && keeps_superseded(groups[k].versions, w.marks, w.epoch));
            }
            if done.superseded {
                assert(keeps_superseded(groups[i as int].versions, w.marks, w.epoch));
            }
            if table_superseded(w, groups, i + 1) {
                let k = choose|k: int| 0 <= k < i + 1 && keeps_superseded((#[trigger] groups[k]).versions, w.marks, w.epoch);
                if k < i {
                    assert(had);
                }
            }
        }
        i = i + 1;
    }
    let done: Result<bool, Error> = Ok(superseded);
    assert(table_done(st, w, groups, start, model::views(items@), first, high@, done->Ok_0));
    done
}

// ---- All tables -------------------------------------------------------------

/// The table whose records are stored under a name. While a table is renamed
/// its records may already have the new name.
pub open spec fn owner(tables: Seq<TableView>, rw: RewriteView, name: Seq<char>) -> Option<TableView> {
    match schema::table_of(tables, name) {
        Some(t) => Some(t),
        None => match rw {
            RewriteView::RenameTable { from, to } => if to == name {
                schema::table_of(tables, from)
            } else {
                None
            },
            _ => None,
        },
    }
}

/// A name with the records that are stored under it.
#[verifier::ext_equal]
pub struct Source {
    pub table: Seq<char>,
    pub groups: Seq<GroupView>,
}

pub open spec fn is_source(st: &State, rw: RewriteView, s: Source) -> bool {
    &&& owner(st.catalog@, rw, s.table) is Some
    &&& st.index.is_listing(encode_utf8(s.table), None, None, s.groups)
}

pub open spec fn has_name(sources: Seq<Source>, name: Seq<char>) -> bool {
    exists|i: int| 0 <= i < sources.len() && (#[trigger] sources[i]).table == name
}

/// The names that have an owner, in order, with all their records.
pub open spec fn is_sources(st: &State, rw: RewriteView, sources: Seq<Source>) -> bool {
    &&& forall|i: int| 0 <= i < sources.len() ==> is_source(st, rw, #[trigger] sources[i])
    &&& forall|i: int, j: int| 0 <= i < j < sources.len() ==> bytes::lex_lt(
        encode_utf8((#[trigger] sources[i]).table),
        encode_utf8((#[trigger] sources[j]).table),
    )
    &&& forall|name: Seq<char>| #[trigger] owner(st.catalog@, rw, name) is Some ==> has_name(sources, name)
}

pub open spec fn rewrite_of(st: &State, rw: RewriteView, marks: Seq<u64>, table: Seq<char>) -> RewriteOf {
    RewriteOf { images: st.images(), rw, marks, table, epoch: owner(st.catalog@, rw, table)->0.epoch }
}

/// The items of the first `n` names.
pub open spec fn all_items(st: &State, rw: RewriteView, marks: Seq<u64>, sources: Seq<Source>, n: int) -> Seq<ItemView>
    decreases n,
{
    if n <= 0 {
        Seq::empty()
    } else {
        let s = sources[n - 1];
        all_items(st, rw, marks, sources, n - 1) + table_items(
            rewrite_of(st, rw, marks, s.table),
            s.groups,
            s.groups.len() as int,
        )->Ok_0
    }
}

pub open spec fn all_highs(st: &State, rw: RewriteView, marks: Seq<u64>, sources: Seq<Source>, n: int) -> Map<Seq<u8>, Seq<char>>
    decreases n,
{
    if n <= 0 {
        Map::empty()
    } else {
        let s = sources[n - 1];
        table_highs(
            all_highs(st, rw, marks, sources, n - 1),
            rewrite_of(st, rw, marks, s.table),
            s.groups,
            s.groups.len() as int,
        )
    }
}

pub open spec fn source_superseded(st: &State, rw: RewriteView, marks: Seq<u64>, s: Source) -> bool {
    table_superseded(rewrite_of(st, rw, marks, s.table), s.groups, s.groups.len() as int)
}

/// Every table could be rewritten.
pub open spec fn source_ok(st: &State, rw: RewriteView, marks: Seq<u64>, s: Source) -> bool {
    table_items(rewrite_of(st, rw, marks, s.table), s.groups, s.groups.len() as int) is Ok
}

/// Some name with an owner cannot be rewritten.
pub open spec fn source_fault(st: &State, rw: RewriteView, marks: Seq<u64>, name: Seq<char>, e: ErrorView) -> bool {
    owner(st.catalog@, rw, name) is Some && table_fault(st, rewrite_of(st, rw, marks, name), e)
}

/// What all tables gave.
struct Gathered {
    items: Vec<SegItem>,
    high: CowMap<String, String>,
    superseded: bool,
}

spec fn gathered(st: &State, rw: RewriteView, marks: Seq<u64>, sources: Seq<Source>, g: Gathered) -> bool {
    let n = sources.len() as int;
    &&& forall|i: int| 0 <= i < n ==> source_ok(st, rw, marks, #[trigger] sources[i])
    &&& model::views(g.items@) == all_items(st, rw, marks, sources, n)
    &&& g.high.wf()
    &&& g.high@ == all_highs(st, rw, marks, sources, n)
    &&& g.superseded == exists|i: int| 0 <= i < n && source_superseded(st, rw, marks, #[trigger] sources[i])
}

/// The names under which records may be stored, in order.
fn source_names(catalog: &Catalog, rw: &Rewrite<'_>) -> (r: CowSet<String>)
    ensures
        r.wf(),
        forall|name: Seq<u8>| #[trigger] r@.contains(name) ==> exists|c: Seq<char>| encode_utf8(c) == name,
        forall|c: Seq<char>| #[trigger] owner(catalog@, rw@, c) is Some ==> r@.contains(encode_utf8(c)),
{
    let mut out: CowSet<String> = CowSet::new();
    let mut i: usize = 0;
    while i < catalog.tables.len()
        invariant
            out.wf(),
            i <= catalog.tables@.len(),
            forall|name: Seq<u8>| #[trigger] out@.contains(name) ==> exists|c: Seq<char>| encode_utf8(c) == name,
            forall|k: int| 0 <= k < i ==> out@.contains(encode_utf8((#[trigger] catalog@[k]).name)),
        decreases catalog.tables@.len() - i,
    {
        let t = &catalog.tables[i];
        assert(catalog@[i as int] == t@);
        let _ = out.insert(t.name.clone());
        i = i + 1;
    }
    match *rw {
        Rewrite::RenameTable { to, .. } => {
            let _ = out.insert(to.to_owned());
        },
        _ => {},
    }
    proof {
        assert forall|c: Seq<char>| #[trigger] owner(catalog@, rw@, c) is Some implies out@.contains(encode_utf8(c)) by {
            if schema::table_of(catalog@, c) is Some {
                let names = schema::table_names(catalog@);
                model::lemma_find(names, c);
                let k = model::find(names, c)->0;
                assert(names[k] == catalog@[k].name);
            }
        }
    }
    out
}

fn gather(st: &State, rw: &Rewrite<'_>, marks: &Vec<u64>) -> (r: Result<Gathered, Error>)
    requires
        st.wf(),
        payload::rewrite_fits(rw@),
        rw@ matches RewriteView::RenameTable { to, .. } ==> encode_utf8(to).len() <= u16::MAX,
    ensures
        match r {
            Ok(g) => exists|sources: Seq<Source>| is_sources(st, rw@, sources) && #[trigger] gathered(st, rw@, marks@, sources, g),
            Err(e) => exists|name: Seq<char>| #[trigger] source_fault(st, rw@, marks@, name, e@),
        },
{
    let names = source_names(&st.catalog, rw);
    let list = names.iter();
    let ghost members = names.members();
    proof {
        names.lemma_members();
    }
    let mut items: Vec<SegItem> = Vec::new();
    let mut high: CowMap<String, String> = CowMap::new();
    let mut superseded: bool = false;
    let ghost mut sources: Seq<Source> = Seq::empty();
    let mut i: usize = 0;
    assert(model::views(items@) =~= Seq::<ItemView>::empty());
    while i < list.len()
        invariant
            st.wf(),
            payload::rewrite_fits(rw@),
            rw@ matches RewriteView::RenameTable { to, .. } ==> encode_utf8(to).len() <= u16::MAX,
            cow::ranks(list@) == members,
            forall|a: int, b: int| 0 <= a < b < members.len() ==> bytes::lex_lt(#[trigger] members[a], #[trigger] members[b]),
            i <= list@.len(),
            high.wf(),
            forall|k: int| 0 <= k < sources.len() ==> is_source(st, rw@, #[trigger] sources[k]) && source_ok(st, rw@, marks@, sources[k]),
            forall|a: int, b: int| 0 <= a < b < sources.len() ==> bytes::lex_lt(
                encode_utf8((#[trigger] sources[a]).table),
                encode_utf8((#[trigger] sources[b]).table),
            ),
            forall|k: int, b: int| 0 <= k < sources.len() && i <= b < members.len() ==> bytes::lex_lt(
                encode_utf8((#[trigger] sources[k]).table),
                #[trigger] members[b],
            ),
            forall|a: int|
                0 <= a < i && owner(st.catalog@, rw@, (#[trigger] list@[a])@) is Some ==> has_name(sources, list@[a]@),
            model::views(items@) == all_items(st, rw@, marks@, sources, sources.len() as int),
            high@ == all_highs(st, rw@, marks@, sources, sources.len() as int),
            superseded == exists|k: int| 0 <= k < sources.len() && source_superseded(st, rw@, marks@, #[trigger] sources[k]),
        decreases list@.len() - i,
    {
        let table: &String = list[i];
        assert(members[i as int] == encode_utf8(table@)) by {
            assert(cow::ranks(list@)[i as int] == table.rank());
        }
        let owned: Option<u64> = match st.catalog.table(table.as_str()) {
            Some(t) => Some(t.epoch),
            None => match *rw {
                Rewrite::RenameTable { from, to } => {
                    if bytes::same_text(to, table.as_str()) {
                        match st.catalog.table(from) {
                            Some(t) => Some(t.epoch),
                            None => None,
                        }
                    } else {
                        None
                    }
                },
                _ => None,
            },
        };
        assert(owned is Some <==> owner(st.catalog@, rw@, table@) is Some);
        match owned {
            None => {},
            Some(epoch) => {
                let ghost w = rewrite_of(st, rw@, marks@, table@);
                assert(epoch == w.epoch);
                proof {
                    if schema::table_of(st.catalog@, table@) is Some {
                        st.lemma_table(table@);
                    }
                }
                let ghost before = model::views(items@);
                let ghost high_before = high@;
                let ghost had = superseded;
                match rewrite_table(st, rw, marks, table.as_str(), epoch, &mut items, &mut high) {
                    Err(e) => {
                        assert(source_fault(st, rw@, marks@, table@, e@));
                        return Err(e);
                    },
                    Ok(more) => {
                        proof {
                            let groups = choose|groups: Seq<GroupView>|
                                #[trigger] table_done(
                                    st,
                                    w,
                                    groups,
                                    before,
                                    model::views(items@),
                                    high_before,
                                    high@,
                                    more,
                                );
                            let old_sources = sources;
                            let s = Source { table: table@, groups };
                            sources = sources.push(s);
                            lemma_sources_prefix(st, rw@, marks@, old_sources, sources, old_sources.len() as int);
                            assert(sources[old_sources.len() as int] == s);
                            assert forall|k: int| 0 <= k < sources.len() implies is_source(st, rw@, #[trigger] sources[k]) && source_ok(
                                st,
                                rw@,
                                marks@,
                                sources[k],
                            ) by {
                                if k < old_sources.len() {
                                    assert(sources[k] == old_sources[k]);
                                }
                            }
                            assert forall|a: int, b: int| 0 <= a < b < sources.len() implies bytes::lex_lt(
                                encode_utf8((#[trigger] sources[a]).table),
                                encode_utf8((#[trigger] sources[b]).table),
                            ) by {
                                assert(sources[a] == old_sources[a]);
                                if b < old_sources.len() {
                                    assert(sources[b] == old_sources[b]);
                                } else {
                                    assert(bytes::lex_lt(encode_utf8(old_sources[a].table), members[i as int]));
                                }
                            }
                            assert forall|k: int, b: int| 0 <= k < sources.len() && i + 1 <= b < members.len() implies bytes::lex_lt(
                                encode_utf8((#[trigger] sources[k]).table),
                                #[trigger] members[b],
                            ) by {
                                if k < old_sources.len() {
                                    assert(sources[k] == old_sources[k]);
                                } else {
                                    assert(bytes::lex_lt(members[i as int], members[b]));
                                }
                            }
                            assert forall|a: int|
                                0 <= a < i + 1 && owner(st.catalog@, rw@, (#[trigger] list@[a])@) is Some implies has_name(
                                sources,
                                list@[a]@,
                            ) by {
                                if a < i {
                                    assert(has_name(old_sources, list@[a]@));
                                    let k = choose|k: int| 0 <= k < old_sources.len() && (#[trigger] old_sources[k]).table == list@[a]@;
                                    assert(sources[k].table == list@[a]@);
                                } else {
                                    assert(sources[old_sources.len() as int].table == list@[a]@);
                                }
                            }
                            if had {
                                let k = choose|k: int|
                                    0 <= k < old_sources.len() && source_superseded(st, rw@, marks@, #[trigger] old_sources[k]);
                                assert(source_superseded(st, rw@, marks@, sources[k]));
                            }
                            if more {
                                assert(source_superseded(st, rw@, marks@, sources[old_sources.len() as int]));
                            }
                            if exists|k: int| 0 <= k < sources.len() && source_superseded(st, rw@, marks@, #[trigger] sources[k]) {
                                let k = choose|k: int|
                                    0 <= k < sources.len() && source_superseded(st, rw@, marks@, #[trigger] sources[k]);
                                if k < old_sources.len() {
                                    assert(source_superseded(st, rw@, marks@, old_sources[k]));
                                }
                            }
                        }
                        if more {
                            superseded = true;
                        }
                    },
                }
            },
        }
        i = i + 1;
    }
    let done: Result<Gathered, Error> = Ok(Gathered { items, high, superseded });
    proof {
        assert forall|name: Seq<char>| #[trigger] owner(st.catalog@, rw@, name) is Some implies has_name(sources, name) by {
            assert(names@.contains(encode_utf8(name)));
            assert(members.contains(encode_utf8(name)));
            let a = members.index_of(encode_utf8(name));
            assert(cow::ranks(list@)[a] == list@[a].rank());
            bytes::lemma_utf8_injective(list@[a]@, name);
        }
        assert(is_sources(st, rw@, sources));
        assert(gathered(st, rw@, marks@, sources, done->Ok_0));
    }
    done
}

proof fn lemma_sources_prefix(st: &State, rw: RewriteView, marks: Seq<u64>, a: Seq<Source>, b: Seq<Source>, n: int)
    requires
        n <= a.len() <= b.len(),
        forall|k: int| 0 <= k < a.len() ==> a[k] == #[trigger] b[k],
    ensures
        all_items(st, rw, marks, a, n) == all_items(st, rw, marks, b, n),
        all_highs(st, rw, marks, a, n) == all_highs(st, rw, marks, b, n),
    decreases n,
{
    if n > 0 {
        lemma_sources_prefix(st, rw, marks, a, b, n - 1);
        assert(a[n - 1] == b[n - 1]);
    }
}

// ---- The blobs that stay ----------------------------------------------------

pub open spec fn names_blob(v: StoredView, name: Seq<u8>) -> bool {
    v matches StoredView::External { name: n, .. } && encode_utf8(n) == name
}

/// A payload refers to a blob.
pub open spec fn refers_to(payload: Seq<u8>, name: Seq<u8>) -> bool {
    payload::blob_refs(payload) matches Ok(list) && exists|r: int| 0 <= r < list.len() && names_blob(#[trigger] list[r], name)
}

pub open spec fn item_mentions(m: ItemView, name: Seq<u8>) -> bool {
    m.payload matches Some(p) && refers_to(p, name)
}

/// Some item refers to a blob.
pub open spec fn mentions(items: Seq<ItemView>, n: int, name: Seq<u8>) -> bool {
    exists|k: int| 0 <= k < n && item_mentions(#[trigger] items[k], name)
}

/// The references of an item can be read.
pub open spec fn refs_readable(m: ItemView) -> bool {
    m.payload matches Some(p) ==> payload::blob_refs(p) is Ok
}

fn add_refs(payload: &[u8], keep: &mut CowSet<String>) -> (r: Result<(), Error>)
    requires
        old(keep).wf(),
    ensures
        final(keep).wf(),
        match r {
            Ok(_) => payload::blob_refs(payload@) is Ok && forall|name: Seq<u8>|
                #[trigger] final(keep)@.contains(name) <==> old(keep)@.contains(name) || refers_to(payload@, name),
            Err(e) => payload::blob_refs(payload@) is Err && e@ == ErrorView::Corrupt(payload::blob_refs(payload@)->Err_0),
        },
{
    let found = match scan_payload_blob_refs(payload) {
        Ok(found) => found,
        Err(e) => {
            return Err(e);
        },
    };
    let ghost list = payload::ref_views(found@);
    let ghost start = keep@;
    let mut i: usize = 0;
    while i < found.len()
        invariant
            keep.wf(),
            list == payload::ref_views(found@),
            i <= found@.len(),
            forall|name: Seq<u8>|
                #[trigger] keep@.contains(name) <==> start.contains(name) || exists|r: int|
                    0 <= r < i && names_blob(#[trigger] list[r], name),
        decreases found@.len() - i,
    {
        let ghost before = keep@;
        let ghost key = encode_utf8(found@[i as int].name@);
        assert(names_blob(list[i as int], key));
        let _ = keep.insert(found[i].name.clone());
        proof {
            assert forall|name: Seq<u8>|
                #[trigger] keep@.contains(name) <==> start.contains(name) || exists|r: int|
                    0 <= r < i + 1 && names_blob(#[trigger] list[r], name) by {
                assert(keep@.contains(name) <==> before.contains(name) || name == key);
                if exists|r: int| 0 <= r < i + 1 && names_blob(#[trigger] list[r], name) {
                    let r = choose|r: int| 0 <= r < i + 1 && names_blob(#[trigger] list[r], name);
                    if r < i {
                        assert(before.contains(name));
                    }
                }
            }
        }
        i = i + 1;
    }
    proof {
        assert(payload::blob_refs(payload@) == Ok::<Seq<StoredView>, Seq<char>>(list));
        assert forall|name: Seq<u8>| #[trigger] keep@.contains(name) <==> start.contains(name) || refers_to(payload@, name) by {
            if refers_to(payload@, name) {
                let r = choose|r: int| 0 <= r < list.len() && names_blob(#[trigger] list[r], name);
                assert(names_blob(list[r], name));
            }
        }
    }
    Ok(())
}

fn collect_refs(items: &Vec<SegItem>) -> (r: Result<CowSet<String>, Error>)
    ensures
        ({
            let v = model::views(items@);
            match r {
                Ok(keep) => {
                    &&& keep.wf()
                    &&& forall|k: int| 0 <= k < v.len() ==> refs_readable(#[trigger] v[k])
                    &&& forall|name: Seq<u8>| #[trigger] keep@.contains(name) <==> mentions(v, v.len() as int, name)
                },
                Err(e) => exists|k: int|
                    0 <= k < v.len() && !refs_readable(#[trigger] v[k]) && e@ == ErrorView::Corrupt(
                        payload::blob_refs(v[k].payload->0)->Err_0,
                    ),
            }
        }),
{
    let ghost v = model::views(items@);
    let mut keep: CowSet<String> = CowSet::new();
    let mut i: usize = 0;
    while i < items.len()
        invariant
            v == model::views(items@),
            keep.wf(),
            i <= items@.len(),
            forall|k: int| 0 <= k < i ==> refs_readable(#[trigger] v[k]),
            forall|name: Seq<u8>| #[trigger] keep@.contains(name) <==> mentions(v, i as int, name),
        decreases items@.len() - i,
    {
        let ghost before = keep@;
        assert(v[i as int] == items@[i as int]@);
        match &items[i].payload {
            None => {},
            Some(p) => {
                match add_refs(p.as_slice(), &mut keep) {
                    Ok(_) => {},
                    Err(e) => {
                        assert(!refs_readable(v[i as int]));
                        return Err(e);
                    },
                }
            },
        }
        proof {
            assert forall|name: Seq<u8>| #[trigger] keep@.contains(name) <==> mentions(v, i + 1, name) by {
                assert(keep@.contains(name) <==> before.contains(name) || item_mentions(v[i as int], name));
                if mentions(v, i as int, name) {
                    let k = choose|k: int| 0 <= k < i && item_mentions(#[trigger] v[k], name);
                    assert(item_mentions(v[k], name));
                }
                if mentions(v, i + 1, name) {
                    let k = choose|k: int| 0 <= k < i + 1 && item_mentions(#[trigger] v[k], name);
                    if k < i {
                        assert(mentions(v, i as int, name));
                    }
                }
            }
        }
        i = i + 1;
    }
    Ok(keep)
}

pub open spec fn kept_blobs(blobs: Map<Seq<u8>, Seq<u8>>, keep: Set<Seq<u8>>) -> Map<Seq<u8>, Seq<u8>> {
    Map::new(|k: Seq<u8>| blobs.contains_key(k) && keep.contains(k), |k: Seq<u8>| blobs[k])
}

/// Drop the blobs that are not to be kept. The result names them, in order.
pub fn collect_garbage(blobs: &mut Blobs, keep: &CowSet<String>) -> (r: Vec<String>)
    requires
        old(blobs).wf(),
        keep.wf(),
    ensures
        final(blobs).wf(),
        final(blobs)@ == kept_blobs(old(blobs)@, keep@),
        forall|i: int| 0 <= i < r@.len() ==> old(blobs)@.contains_key(encode_utf8((#[trigger] r@[i])@)) && !keep@.contains(
            encode_utf8(r@[i]@),
        ),
        forall|k: Seq<u8>| #[trigger] old(blobs)@.contains_key(k) && !keep@.contains(k) ==> named(r@, k),
        forall|i: int, j: int| 0 <= i < j < r@.len() ==> bytes::lex_lt(
            encode_utf8((#[trigger] r@[i])@),
            encode_utf8((#[trigger] r@[j])@),
        ),
{
    let ghost start = blobs@;
    let ghost s = blobs.pairs();
    proof {
        blobs.lemma_wf();
    }
    let mut gone: Vec<String> = Vec::new();
    {
        let list = blobs.keys();
        let mut i: usize = 0;
        while i < list.len()
            invariant
                keep.wf(),
                s == blobs.pairs(),
                start == blobs@,
                start == pairs::to_map(s),
                pairs::sorted(s),
                i <= list@.len(),
                list@.len() == s.len(),
                forall|k: int| 0 <= k < list@.len() ==> (#[trigger] list@[k]).rank() == s[k].0,
                forall|k: int| 0 <= k < gone@.len() ==> start.contains_key(encode_utf8((#[trigger] gone@[k])@)) && !keep@.contains(
                    encode_utf8(gone@[k]@),
                ),
                forall|k: int, j: int| 0 <= k < gone@.len() && i <= j < s.len() ==> bytes::lex_lt(
                    encode_utf8((#[trigger] gone@[k])@),
                    #[trigger] s[j].0,
                ),
                forall|k: int, j: int| 0 <= k < j < gone@.len() ==> bytes::lex_lt(
                    encode_utf8((#[trigger] gone@[k])@),
                    encode_utf8((#[trigger] gone@[j])@),
                ),
                forall|k: int| 0 <= k < i ==> keep@.contains(#[trigger] s[k].0) || named(gone@, s[k].0),
            decreases list@.len() - i,
        {
            let name: &String = list[i];
            let ghost before = gone@;
            assert(list@[i as int].rank() == s[i as int].0);
            proof {
                pairs::lemma_to_map_at(s, i as int);
            }
            if !keep.contains(name.as_str().as_bytes()) {
                gone.push(name.clone());
                proof {
                    assert(gone@[before.len() as int]@ == name@);
                    assert forall|k: int, j: int| 0 <= k < gone@.len() && i + 1 <= j < s.len() implies bytes::lex_lt(
                        encode_utf8((#[trigger] gone@[k])@),
                        #[trigger] s[j].0,
                    ) by {
                        if k == before.len() {
                            assert(bytes::lex_lt(s[i as int].0, s[j].0));
                        }
                    }
                    assert forall|k: int, j: int| 0 <= k < j < gone@.len() implies bytes::lex_lt(
                        encode_utf8((#[trigger] gone@[k])@),
                        encode_utf8((#[trigger] gone@[j])@),
                    ) by {
                        if j == before.len() {
                            assert(bytes::lex_lt(encode_utf8(before[k]@), s[i as int].0));
                        }
                    }
                    assert forall|k: int| 0 <= k < i + 1 implies keep@.contains(#[trigger] s[k].0) || named(gone@, s[k].0) by {
                        if k < i && named(before, s[k].0) {
                            let x = choose|x: int| 0 <= x < before.len() && encode_utf8((#[trigger] before[x])@) == s[k].0;
                            assert(encode_utf8(gone@[x]@) == s[k].0);
                        } else if k == i {
                            assert(encode_utf8(gone@[before.len() as int]@) == s[k].0);
                        }
                    }
                }
            }
            i = i + 1;
        }
    }
    let mut j: usize = 0;
    while j < gone.len()
        invariant
            blobs.wf(),
            j <= gone@.len(),
            forall|k: Seq<u8>| #[trigger] blobs@.contains_key(k) <==> start.contains_key(k) && !named(gone@.subrange(0, j as int), k),
            forall|k: Seq<u8>| #[trigger] blobs@.contains_key(k) ==> blobs@[k] == start[k],
        decreases gone@.len() - j,
    {
        let ghost before = blobs@;
        let ghost key = encode_utf8(gone@[j as int]@);
        let ghost a = gone@.subrange(0, j as int);
        let ghost b = gone@.subrange(0, j + 1);
        let _ = blobs.remove(gone[j].as_str().as_bytes());
        proof {
            assert forall|k: Seq<u8>| #[trigger] blobs@.contains_key(k) <==> start.contains_key(k) && !named(b, k) by {
                assert(blobs@.contains_key(k) <==> before.contains_key(k) && k != key);
                if named(a, k) {
                    let x = choose|x: int| 0 <= x < a.len() && encode_utf8((#[trigger] a[x])@) == k;
                    assert(encode_utf8(b[x]@) == k);
                }
                if named(b, k) {
                    let x = choose|x: int| 0 <= x < b.len() && encode_utf8((#[trigger] b[x])@) == k;
                    if x < j {
                        assert(encode_utf8(a[x]@) == k);
                    }
                }
                assert(b[j as int] == gone@[j as int]);
            }
        }
        j = j + 1;
    }
    proof {
        assert(gone@.subrange(0, j as int) =~= gone@);
        assert forall|k: Seq<u8>| start.contains_key(k) implies (keep@.contains(k) <==> !named(gone@, k)) by {
            assert(pairs::has_key(s, k));
            let p = pairs::index_of(s, k);
            assert(s[p].0 == k);
            if named(gone@, k) {
                let x = choose|x: int| 0 <= x < gone@.len() && encode_utf8((#[trigger] gone@[x])@) == k;
                assert(!keep@.contains(encode_utf8(gone@[x]@)));
            }
        }
        assert(blobs@ =~= kept_blobs(start, keep@));
    }
    gone
}

/// Whether a list of names has one with the given bytes.
pub open spec fn named(list: Seq<String>, key: Seq<u8>) -> bool {
    exists|x: int| 0 <= x < list.len() && encode_utf8((#[trigger] list[x])@) == key
}

// ---- The new segment --------------------------------------------------------

/// A rewritten store that waits to be taken over.
pub struct Rewritten {
    pub catalog: Catalog,
    pub segment: u32,
    pub image: Arc<Vec<u8>>,
    pub run: PagedIndex,
    pub generation: u64,
    pub superseded: bool,
    /// The new segment, or none where nothing stays.
    pub metas: Vec<SegmentMeta>,
    pub high_ids: CowMap<String, String>,
    /// The blobs that the new segment refers to.
    pub keep: CowSet<String>,
}

pub open spec fn is_rewritten(st: &State, rw: RewriteView, marks: Seq<u64>, sources: Seq<Source>, locs: Seq<u64>, r: Rewritten) -> bool {
    let n = sources.len() as int;
    let items = all_items(st, rw, marks, sources, n);
    &&& is_sources(st, rw, sources)
    &&& forall|i: int| 0 <= i < n ==> source_ok(st, rw, marks, #[trigger] sources[i])
    &&& r.catalog@ == ddl::applied(rw, st.catalog@)
    &&& r.segment == st.next_segment_id
    &&& r.image@ == segwrite::image_bytes(items, segwrite::span(0, items.len() as int), items.len() as int)
    &&& segwrite::located(items, locs, r.image@)
    &&& forall|k: int| 0 <= k < items.len() ==> segwrite::item_fits(#[trigger] items[k]) && refs_readable(items[k])
    &&& r.run.wf()
    &&& r.run.version() == r.generation
    &&& r.run.rows().to_multiset() == segwrite::run_rows(items, locs, r.segment, r.catalog@, items.len() as int).to_multiset()
    &&& r.metas@ == (if items.len() == 0 {
        Seq::<SegmentMeta>::empty()
    } else {
        seq![SegmentMeta { id: r.segment, len: r.image@.len() as u64 }]
    })
    &&& r.generation == levels::hash_of(levels::generation_bytes(st.committed_version, r.metas@, r.catalog@))
    &&& r.superseded == (items.len() > 0 && exists|i: int| 0 <= i < n && source_superseded(st, rw, marks, #[trigger] sources[i]))
    &&& r.high_ids.wf()
    &&& r.high_ids@ == all_highs(st, rw, marks, sources, n)
    &&& r.keep.wf()
    &&& forall|name: Seq<u8>| #[trigger] r.keep@.contains(name) <==> mentions(items, items.len() as int, name)
}

/// A rewritten version that cannot be stored.
pub open spec fn item_fault(m: ItemView, e: ErrorView) -> bool {
    ||| !segwrite::item_fits(m) && e == segwrite::too_long()
    ||| !refs_readable(m) && e == ErrorView::Corrupt(payload::blob_refs(m.payload->0)->Err_0)
}

/// Why the store cannot be rewritten.
pub open spec fn rewrite_error(st: &State, rw: RewriteView, marks: Seq<u64>, e: ErrorView) -> bool {
    ||| exists|name: Seq<char>| #[trigger] source_fault(st, rw, marks, name, e)
    ||| exists|sources: Seq<Source>, k: int| #[trigger] is_sources(st, rw, sources) && 0 <= k < all_items(
        st,
        rw,
        marks,
        sources,
        sources.len() as int,
    ).len() && item_fault(#[trigger] all_items(st, rw, marks, sources, sources.len() as int)[k], e)
}

/// The names of a rewrite fit the stored forms.
pub open spec fn names_fit(rw: RewriteView) -> bool {
    &&& payload::rewrite_fits(rw)
    &&& rw matches RewriteView::RenameTable { to, .. } ==> encode_utf8(to).len() <= u16::MAX
}

/// Rewrite every segment into one: of each record the versions that a reader at
/// one of `marks` sees, with a schema change applied. Nothing is resident when
/// this is called.
pub fn rewrite_segments_shared(st: &State, read_only: bool, rw: &Rewrite<'_>, marks: &Vec<u64>) -> (r: Result<Rewritten, Error>)
    requires
        st.wf(),
        names_fit(rw@),
    ensures
        read_only ==> r is Err && r->Err_0@ == ErrorView::ReadOnly,
        !read_only ==> match r {
            Ok(out) => exists|sources: Seq<Source>, locs: Seq<u64>| #[trigger] is_rewritten(st, rw@, marks@, sources, locs, out),
            Err(e) => rewrite_error(st, rw@, marks@, e@),
        },
{
    if read_only {
        return Err(Error::ReadOnly);
    }
    let Gathered { items, high, superseded } = match gather(st, rw, marks) {
        Ok(g) => g,
        Err(e) => {
            return Err(e);
        },
    };
    let ghost sources = choose|sources: Seq<Source>|
        is_sources(st, rw@, sources) && #[trigger] gathered(st, rw@, marks@, sources, Gathered { items, high, superseded });
    let ghost v = all_items(st, rw@, marks@, sources, sources.len() as int);
    assert(v == model::views(items@));
    let keep = match collect_refs(&items) {
        Ok(keep) => keep,
        Err(e) => {
            proof {
                let k = choose|k: int|
                    0 <= k < v.len() && !refs_readable(#[trigger] v[k]) && e@ == ErrorView::Corrupt(
                        payload::blob_refs(v[k].payload->0)->Err_0,
                    );
                assert(is_sources(st, rw@, sources) && item_fault(
                    all_items(st, rw@, marks@, sources, sources.len() as int)[k],
                    e@,
                ));
            }
            return Err(e);
        },
    };
    let count: usize = items.len();
    let order = same_order(count);
    let (image, locs) = match write_items(&items, &order) {
        Ok(done) => done,
        Err(e) => {
            proof {
                let q = choose|q: int| 0 <= q < order@.len() && !segwrite::item_fits(v[#[trigger] order@[q] as int]);
                let k = order@[q] as int;
                assert(is_sources(st, rw@, sources) && item_fault(
                    all_items(st, rw@, marks@, sources, sources.len() as int)[k],
                    e@,
                ));
            }
            return Err(e);
        },
    };
    proof {
        assert forall|i: int| 0 <= i < v.len() implies segwrite::located_at(#[trigger] v[i], locs@[i], image@)
            && segwrite::item_fits(v[i]) by {
            assert(order@[i] == i as usize);
        }
        assert forall|i: int| 0 <= i < items@.len() implies segwrite::item_fits((#[trigger] items@[i])@) by {
            assert(v[i] == items@[i]@);
        }
    }
    let mut catalog = st.catalog.duplicate();
    rw.apply_to_catalog(&mut catalog);
    let segment: u32 = st.next_segment_id;
    let rows = make_run_rows(&items, &locs, segment, &catalog);
    let sorted = paged::sort_rows(&rows);
    let mut metas: Vec<SegmentMeta> = Vec::new();
    let length: usize = image.len();
    if count > 0 {
        metas.push(SegmentMeta { id: segment, len: length as u64 });
    }
    let generation: u64 = primary_generation(st.committed_version, &metas, &catalog);
    let run = PagedIndex::from_rows(sorted, generation);
    let done: Result<Rewritten, Error> = Ok(
        Rewritten {
            catalog,
            segment,
            image: Arc::new(image),
            run,
            generation,
            superseded: superseded && count > 0,
            metas,
            high_ids: high,
            keep,
        },
    );
    proof {
        let out = done->Ok_0;
        assert(out.metas@ =~= (if v.len() == 0 {
            Seq::<SegmentMeta>::empty()
        } else {
            seq![SegmentMeta { id: out.segment, len: out.image@.len() as u64 }]
        }));
        assert(is_rewritten(st, rw@, marks@, sources, locs@, out));
    }
    done
}

/// The state after a rewrite was taken over.
pub open spec fn rewrite_taken(before: &State, after: &State, r: Rewritten, bytes: u64, is_ddl: bool) -> bool {
    &&& after.catalog == r.catalog
    &&& after.committed_version == before.committed_version
    &&& after.identities == before.identities
    &&& after.high_ids == r.high_ids
    &&& after.superseded@ == (if r.superseded {
        seq![r.segment]
    } else {
        Seq::<u32>::empty()
    })
    &&& after.metas == r.metas
    &&& after.next_segment_id == r.segment + 1
    &&& model::views(after.segments@) == (if r.metas@.len() == 0 {
        Seq::<SegmentView>::empty()
    } else {
        seq![SegmentView { id: r.segment, image: r.image@ }]
    })
    &&& after.secondary@ == (if is_ddl {
        Seq::<SecSlot>::empty()
    } else {
        before.secondary@
    })
    &&& after.index.wf()
    &&& after.index.generation == r.generation
    &&& after.index.frozen is None
    &&& after.index.delta@ == Map::<Seq<u8>, Seq<VersionView>>::empty()
    &&& after.index.runs@.len() == 1
    &&& after.index.runs@[0].meta@ == (RunMetaView {
        file: "primary.pidx"@,
        level: PRIMARY_BASE_LEVEL,
        bytes,
        generation: r.generation,
    })
    &&& after.index.runs@[0].index.rows() == r.run.rows()
    &&& after.blobs.wf()
    &&& after.blobs@ == kept_blobs(before.blobs@, r.keep@)
}

impl State {
    /// Take over a rewritten store. The equality indexes are dropped where the
    /// schema changed. The result names the blobs that can be deleted.
    pub fn adopt_rewrite(&mut self, r: Rewritten, bytes: u64, is_ddl: bool) -> (gone: Vec<String>)
        requires
            old(self).wf(),
            r.run.wf(),
            r.keep.wf(),
            r.segment < u32::MAX,
        ensures
            rewrite_taken(old(self), final(self), r, bytes, is_ddl),
            forall|i: int| 0 <= i < gone@.len() ==> old(self).blobs@.contains_key(encode_utf8((#[trigger] gone@[i])@))
                && !r.keep@.contains(encode_utf8(gone@[i]@)),
            forall|k: Seq<u8>| #[trigger] old(self).blobs@.contains_key(k) && !r.keep@.contains(k) ==> named(gone@, k),
    {
        let Rewritten { catalog, segment, image, run, generation, superseded, metas, high_ids, keep } = r;
        self.catalog = catalog;
        self.index = PrimaryIdx::paged_named(run, "primary.pidx".to_owned(), PRIMARY_BASE_LEVEL, bytes, generation);
        self.high_ids = high_ids;
        self.superseded = Vec::new();
        if superseded {
            self.superseded.push(segment);
        }
        self.segments = Vec::new();
        if metas.len() > 0 {
            self.segments.push(Segment { id: segment, image });
        }
        self.metas = metas;
        self.next_segment_id = segment + 1;
        if is_ddl {
            self.secondary = Vec::new();
        }
        let gone = collect_garbage(&mut self.blobs, &keep);
        proof {
            assert(self.superseded@ =~= (if r.superseded {
                seq![r.segment]
            } else {
                Seq::<u32>::empty()
            }));
            assert(model::views(self.segments@) =~= (if r.metas@.len() == 0 {
                Seq::<SegmentView>::empty()
            } else {
                seq![SegmentView { id: r.segment, image: r.image@ }]
            }));
            assert(self.secondary@ =~= (if is_ddl {
                Seq::<SecSlot>::empty()
            } else {
                old(self).secondary@
            }));
        }
        gone
    }
}

} // verus!
