//! What compaction means to readers: nothing, for those it was told of.

use crate::bytes;
use crate::checkpoint_laws;
use crate::compact::{self, RewriteOf, Rewritten, Source};
use crate::ddl::RewriteView;
use crate::error::ErrorView;
use crate::levels;
use crate::paged;
use crate::payload;
use crate::primary;
use crate::record::{self, RecordView};
use crate::segment::{self, SegmentView};
use crate::segwrite::{self, ItemView};
use crate::state::{self, State};
use crate::value::{self, StoredView};
use crate::version::{self, VersionView};
use crate::visit::GroupView;
use vstd::prelude::*;
use vstd::utf8::*;

verus! {

// ---- Blobs that nothing refers to -------------------------------------------

/// Two sets of blobs that agree on all that a list of references names.
pub open spec fn agree_on(list: Seq<StoredView>, a: Map<Seq<u8>, Seq<u8>>, b: Map<Seq<u8>, Seq<u8>>) -> bool {
    forall|r: int| 0 <= r < list.len() ==> record::resolved(#[trigger] list[r], a) == record::resolved(list[r], b)
}

proof fn lemma_record_from_same(
    buf: Seq<u8>,
    pos: int,
    count: nat,
    a: Map<Seq<u8>, Seq<u8>>,
    b: Map<Seq<u8>, Seq<u8>>,
    acc: RecordView,
)
    requires
        payload::refs_from(buf, pos, count) is Ok,
        agree_on(payload::refs_from(buf, pos, count)->Ok_0, a, b),
    ensures
        record::record_from(buf, pos, count, a, acc) == record::record_from(buf, pos, count, b, acc),
    decreases count,
{
    if count > 0 && payload::text_name_at(buf, pos) is Ok {
        let (name, at) = payload::text_name_at(buf, pos)->Ok_0;
        if value::field_at(buf, at) is Ok {
            let (v, end) = value::field_at(buf, at)->Ok_0;
            let found = payload::ref_in(buf, at, end)->Ok_0;
            let rest = payload::refs_from(buf, end, (count - 1) as nat)->Ok_0;
            let all = payload::refs_from(buf, pos, count)->Ok_0;
            assert(all == found + rest);
            assert(agree_on(rest, a, b)) by {
                assert forall|r: int| 0 <= r < rest.len() implies record::resolved(#[trigger] rest[r], a) == record::resolved(
                    rest[r],
                    b,
                ) by {
                    assert(all[found.len() + r] == rest[r]);
                }
            }
            assert(record::resolved(v, a) == record::resolved(v, b)) by {
                if v is External {
                    assert(found =~= seq![v]);
                    assert(all[0] == v);
                }
            }
            if record::resolved(v, a) is Ok {
                let x = record::resolved(v, a)->Ok_0;
                lemma_record_from_same(buf, end, (count - 1) as nat, a, b, acc.insert(name, x));
            }
        }
    }
}

/// A record reads the same when blobs go to which it does not refer.
pub proof fn lemma_unreferenced_blobs(buf: Seq<u8>, blobs: Map<Seq<u8>, Seq<u8>>, keep: Set<Seq<u8>>)
    requires
        payload::blob_refs(buf) is Ok,
        forall|name: Seq<u8>| #[trigger] compact::refers_to(buf, name) ==> keep.contains(name),
    ensures
        record::decoded(buf, compact::kept_blobs(blobs, keep)) == record::decoded(buf, blobs),
{
    let n = payload::count_of(buf)->Ok_0;
    let list = payload::blob_refs(buf)->Ok_0;
    let after = compact::kept_blobs(blobs, keep);
    assert forall|r: int| 0 <= r < list.len() implies record::resolved(#[trigger] list[r], after) == record::resolved(
        list[r],
        blobs,
    ) by {
        if let StoredView::External { name, .. } = list[r] {
            assert(compact::names_blob(list[r], encode_utf8(name)));
            assert(compact::refers_to(buf, encode_utf8(name)));
        }
    }
    lemma_record_from_same(buf, 2, n, after, blobs, Map::empty());
}

// ---- Where items come from --------------------------------------------------

/// An item is the retained version at `i` of a record.
pub open spec fn group_source(w: RewriteOf, g: GroupView, n: int, i: int, m: ItemView) -> bool {
    &&& 0 <= i < n
    &&& compact::retained(g.versions, w.marks, w.epoch, i)
    &&& compact::new_payload(w.images, w.rw, w.table, g.versions[i]) is Ok
    &&& m == compact::new_item(
        w.out(),
        g.id,
        g.versions[i].version,
        compact::new_payload(w.images, w.rw, w.table, g.versions[i])->Ok_0,
    )
}

pub open spec fn from_group(w: RewriteOf, g: GroupView, n: int, m: ItemView) -> bool {
    exists|i: int| #[trigger] group_source(w, g, n, i, m)
}

proof fn lemma_group_items(w: RewriteOf, g: GroupView, n: int)
    requires
        0 <= n <= g.versions.len(),
        compact::group_items(w, g, n) is Ok,
    ensures
        forall|m: ItemView| #[trigger] compact::group_items(w, g, n)->Ok_0.contains(m) <==> from_group(w, g, n, m),
        forall|i: int| 0 <= i < n && #[trigger] compact::retained(g.versions, w.marks, w.epoch, i) ==> compact::new_payload(
            w.images,
            w.rw,
            w.table,
            g.versions[i],
        ) is Ok,
    decreases n,
{
    let s = compact::group_items(w, g, n)->Ok_0;
    if n > 0 {
        lemma_group_items(w, g, n - 1);
        let rest = compact::group_items(w, g, n - 1)->Ok_0;
        assert forall|m: ItemView| #[trigger] s.contains(m) <==> from_group(w, g, n, m) by {
            if s.contains(m) {
                let k = s.index_of(m);
                if k < rest.len() {
                    assert(rest[k] == m);
                    assert(rest.contains(m));
                    let i = choose|i: int| #[trigger] group_source(w, g, n - 1, i, m);
                    assert(group_source(w, g, n, i, m));
                } else {
                    assert(group_source(w, g, n, n - 1, m));
                }
            }
            if from_group(w, g, n, m) {
                let i = choose|i: int| #[trigger] group_source(w, g, n, i, m);
                if i < n - 1 {
                    assert(group_source(w, g, n - 1, i, m));
                    assert(rest.contains(m));
                    assert(s[rest.index_of(m)] == m);
                } else {
                    assert(s[rest.len() as int] == m);
                }
            }
        }
    }
}

pub open spec fn table_source(w: RewriteOf, groups: Seq<GroupView>, n: int, q: int, m: ItemView) -> bool {
    0 <= q < n && from_group(w, groups[q], groups[q].versions.len() as int, m)
}

pub open spec fn from_table(w: RewriteOf, groups: Seq<GroupView>, n: int, m: ItemView) -> bool {
    exists|q: int| #[trigger] table_source(w, groups, n, q, m)
}

pub open spec fn group_readable(w: RewriteOf, g: GroupView) -> bool {
    compact::group_items(w, g, g.versions.len() as int) is Ok
}

proof fn lemma_table_items(w: RewriteOf, groups: Seq<GroupView>, n: int)
    requires
        0 <= n <= groups.len(),
        compact::table_items(w, groups, n) is Ok,
    ensures
        forall|m: ItemView| #[trigger] compact::table_items(w, groups, n)->Ok_0.contains(m) <==> from_table(w, groups, n, m),
        forall|q: int| 0 <= q < n ==> group_readable(w, #[trigger] groups[q]),
    decreases n,
{
    let s = compact::table_items(w, groups, n)->Ok_0;
    if n > 0 {
        lemma_table_items(w, groups, n - 1);
        let g = groups[n - 1];
        lemma_group_items(w, g, g.versions.len() as int);
        let rest = compact::table_items(w, groups, n - 1)->Ok_0;
        let more = compact::group_items(w, g, g.versions.len() as int)->Ok_0;
        assert forall|m: ItemView| #[trigger] s.contains(m) <==> from_table(w, groups, n, m) by {
            lemma_in_concat(rest, more, m);
            if from_table(w, groups, n - 1, m) {
                let q = choose|q: int| #[trigger] table_source(w, groups, n - 1, q, m);
                assert(table_source(w, groups, n, q, m));
            }
            if more.contains(m) {
                assert(table_source(w, groups, n, n - 1, m));
            }
            if from_table(w, groups, n, m) {
                let q = choose|q: int| #[trigger] table_source(w, groups, n, q, m);
                if q < n - 1 {
                    assert(table_source(w, groups, n - 1, q, m));
                }
            }
            assert(rest.contains(m) <==> from_table(w, groups, n - 1, m));
            assert(more.contains(m) <==> from_group(w, g, g.versions.len() as int, m));
        }
    }
}

proof fn lemma_in_concat(a: Seq<ItemView>, b: Seq<ItemView>, m: ItemView)
    ensures
        (a + b).contains(m) <==> a.contains(m) || b.contains(m),
{
    let c = a + b;
    if a.contains(m) {
        assert(c[a.index_of(m)] == m);
    }
    if b.contains(m) {
        assert(c[a.len() + b.index_of(m)] == m);
    }
    if c.contains(m) {
        let k = c.index_of(m);
        if k < a.len() {
            assert(a[k] == m);
        } else {
            assert(b[k - a.len()] == m);
        }
    }
}

pub open spec fn source_at(st: &State, rw: RewriteView, marks: Seq<u64>, sources: Seq<Source>, n: int, j: int, m: ItemView) -> bool {
    0 <= j < n && from_table(
        compact::rewrite_of(st, rw, marks, sources[j].table),
        sources[j].groups,
        sources[j].groups.len() as int,
        m,
    )
}

/// The items are the retained versions of all records of all tables.
pub proof fn lemma_all_items(st: &State, rw: RewriteView, marks: Seq<u64>, sources: Seq<Source>, n: int)
    requires
        0 <= n <= sources.len(),
        forall|i: int| 0 <= i < n ==> compact::source_ok(st, rw, marks, #[trigger] sources[i]),
    ensures
        forall|m: ItemView|
            #[trigger] compact::all_items(st, rw, marks, sources, n).contains(m) <==> exists|j: int|
                #[trigger] source_at(st, rw, marks, sources, n, j, m),
    decreases n,
{
    let s = compact::all_items(st, rw, marks, sources, n);
    if n > 0 {
        lemma_all_items(st, rw, marks, sources, n - 1);
        let x = sources[n - 1];
        assert(compact::source_ok(st, rw, marks, x));
        let w = compact::rewrite_of(st, rw, marks, x.table);
        lemma_table_items(w, x.groups, x.groups.len() as int);
        let rest = compact::all_items(st, rw, marks, sources, n - 1);
        let more = compact::table_items(w, x.groups, x.groups.len() as int)->Ok_0;
        assert forall|m: ItemView|
            #[trigger] s.contains(m) <==> exists|j: int| #[trigger] source_at(st, rw, marks, sources, n, j, m) by {
            lemma_in_concat(rest, more, m);
            assert(rest.contains(m) <==> exists|j: int| #[trigger] source_at(st, rw, marks, sources, n - 1, j, m));
            assert(more.contains(m) <==> from_table(w, x.groups, x.groups.len() as int, m));
            if rest.contains(m) {
                let j = choose|j: int| #[trigger] source_at(st, rw, marks, sources, n - 1, j, m);
                assert(source_at(st, rw, marks, sources, n, j, m));
            }
            if more.contains(m) {
                assert(source_at(st, rw, marks, sources, n, n - 1, m));
            }
            if exists|j: int| #[trigger] source_at(st, rw, marks, sources, n, j, m) {
                let j = choose|j: int| #[trigger] source_at(st, rw, marks, sources, n, j, m);
                if j < n - 1 {
                    assert(source_at(st, rw, marks, sources, n - 1, j, m));
                }
            }
        }
    }
}

// ---- What a reader gets -----------------------------------------------------

/// The versions that stay, seen over the new segment: each is one of the old
/// ones, and each that is to stay is there.
pub open spec fn trimmed(
    vs: Seq<VersionView>,
    marks: Seq<u64>,
    epoch: u64,
    before: Seq<SegmentView>,
    after: Seq<SegmentView>,
    list: Seq<VersionView>,
) -> bool {
    &&& forall|x: VersionView| #[trigger] list.contains(x) ==> exists|i: int|
        #[trigger] compact::retained(vs, marks, epoch, i) && 0 <= i < vs.len() && checkpoint_laws::same_content(
            before,
            after,
            vs[i],
            x,
        )
    &&& forall|i: int| 0 <= i < vs.len() && #[trigger] compact::retained(vs, marks, epoch, i) ==> exists|x: VersionView|
        #[trigger] checkpoint_laws::stands_for(list, before, after, vs[i], x)
}

/// What a reader makes of an answer: a deletion is no record.
pub open spec fn live(v: Option<VersionView>) -> Option<VersionView> {
    match v {
        Some(v) => if v.kind.is_tombstone() {
            None
        } else {
            Some(v)
        },
        None => None,
    }
}

#[verifier::spinoff_prover]
#[verifier::rlimit(60)]
proof fn lemma_trimmed(
    old_list: Seq<VersionView>,
    vs: Seq<VersionView>,
    marks: Seq<u64>,
    epoch: u64,
    before: Seq<SegmentView>,
    after: Seq<SegmentView>,
    list: Seq<VersionView>,
    q: int,
)
    requires
        primary::consistent(old_list),
        primary::is_group(vs, old_list),
        trimmed(vs, marks, epoch, before, after, list),
        0 <= q < marks.len(),
    ensures
        checkpoint_laws::same_answer(
            before,
            after,
            live(state::current(old_list, marks[q], epoch)),
            live(state::current(list, marks[q], epoch)),
        ),
        live(state::current(old_list, marks[q], epoch)) matches Some(v) ==> exists|i: int|
            0 <= i < vs.len() && #[trigger] compact::retained(vs, marks, epoch, i) && vs[i] == v,
{
    let max = marks[q];
    primary::lemma_newest_of(old_list, max);
    primary::lemma_newest_of(list, max);
    let a = state::current(old_list, max, epoch);
    let b = state::current(list, max, epoch);
    // What the new list shows, the old one has too.
    if b is Some {
        let x = b->0;
        assert(list.contains(x));
        let i = choose|i: int|
            #[trigger] compact::retained(vs, marks, epoch, i) && 0 <= i < vs.len() && checkpoint_laws::same_content(
                before,
                after,
                vs[i],
                x,
            );
        assert(old_list.contains(vs[i]));
        let p = old_list.index_of(vs[i]);
        assert(old_list[p].version <= max);
        assert(a is Some);
    }
    if a is Some {
        let v = a->0;
        let p = old_list.index_of(v);
        assert(old_list[p] == v);
        assert(primary::has_version(vs, old_list[p].version));
        let i = choose|i: int| 0 <= i < vs.len() && (#[trigger] vs[i]).version == v.version;
        assert(old_list.contains(vs[i]));
        let p2 = old_list.index_of(vs[i]);
        assert(old_list[p2] == old_list[p]);
        assert(vs[i] == v);
        assert(compact::chosen_at(vs, max, epoch, i)) by {
            assert forall|k: int| i < k < vs.len() implies !(epoch < (#[trigger] vs[k]).version <= max) by {
                assert(old_list.contains(vs[k]));
                let pk = old_list.index_of(vs[k]);
                assert(old_list[pk].version == vs[k].version);
                assert(vs[i].version < vs[k].version);
            }
        }
        assert(compact::chosen_at(vs, marks[q], epoch, i));
        assert(compact::selected(vs, marks, epoch, i));
        // Nothing that stays and that the reader may see is newer.
        if b is Some {
            let x = b->0;
            let j = choose|j: int|
                #[trigger] compact::retained(vs, marks, epoch, j) && 0 <= j < vs.len() && checkpoint_laws::same_content(
                    before,
                    after,
                    vs[j],
                    x,
                );
            assert(vs[j].version == x.version);
            assert(j <= i) by {
                if j > i {
                    assert(!(epoch < vs[j].version <= max));
                }
            }
        }
        if compact::retained(vs, marks, epoch, i) {
            let x = choose|x: VersionView| #[trigger] checkpoint_laws::stands_for(list, before, after, vs[i], x);
            let px = list.index_of(x);
            assert(list[px] == x);
            assert(b is Some);
            let y = b->0;
            let j = choose|j: int|
                #[trigger] compact::retained(vs, marks, epoch, j) && 0 <= j < vs.len() && checkpoint_laws::same_content(
                    before,
                    after,
                    vs[j],
                    y,
                );
            assert(y.version >= x.version);
            if j < i {
                assert(vs[j].version < vs[i].version);
            }
            assert(j == i);
            assert(checkpoint_laws::same_content(before, after, v, y));
        } else {
            assert(v.kind.is_tombstone());
            if b is Some {
                let y = b->0;
                let j = choose|j: int|
                    #[trigger] compact::retained(vs, marks, epoch, j) && 0 <= j < vs.len() && checkpoint_laws::same_content(
                        before,
                        after,
                        vs[j],
                        y,
                    );
                assert(j < i);
                if vs[j].kind.is_tombstone() {
                    let k = choose|k: int| 0 <= k < j && #[trigger] compact::selected_put(vs, marks, epoch, k);
                    assert(compact::selected_put(vs, marks, epoch, k) && k < i);
                } else {
                    assert(compact::selected_put(vs, marks, epoch, j));
                }
                assert(false);
            }
        }
    }
}

/// Runs without a key have no versions under it.
pub proof fn lemma_unheld(runs: Seq<primary::Run>, key: Seq<u8>)
    requires
        !primary::run_holds(runs, key),
    ensures
        primary::run_entries(runs, key) == Ok::<Seq<VersionView>, Seq<char>>(Seq::empty()),
    decreases runs.len(),
{
    if runs.len() > 0 {
        let t = runs.drop_last();
        assert(!primary::run_holds(t, key)) by {
            if primary::run_holds(t, key) {
                let i = choose|i: int| 0 <= i < t.len() && #[trigger] paged::holds_key(t[i].index.rows(), key);
                assert(paged::holds_key(runs[i].index.rows(), key));
            }
        }
        lemma_unheld(t, key);
        let rows = runs.last().index.rows();
        let values = paged::values_of(rows, key);
        if values.len() > 0 {
            assert(values.contains(values[0]));
            paged::lemma_values_of(rows, key, values[0]);
            let i = choose|i: int| 0 <= i < rows.len() && #[trigger] rows[i] == (key, values[0]);
            assert(rows[i].0 == key);
            assert(paged::holds_key(runs[runs.len() - 1].index.rows(), key));
        }
        assert(values =~= Seq::<Seq<u8>>::empty());
        assert(Seq::<VersionView>::empty() + Seq::<VersionView>::empty() =~= Seq::<VersionView>::empty());
    }
}

/// The versions of a record before and after, as far as one rewrite goes.
spec fn record_trimmed(before: &State, after: &State, marks: Seq<u64>, key: Seq<u8>, epoch: u64, vs: Seq<VersionView>) -> bool {
    &&& before.index.entries(key) matches Ok(old_list) && primary::is_group(vs, old_list)
    &&& after.index.entries(key) matches Ok(list) && trimmed(vs, marks, epoch, before.images(), after.images(), list)
}

/// An item that comes from the record `id` of a table.
spec fn item_of(before: &State, marks: Seq<u64>, table: Seq<char>, g: GroupView, m: ItemView) -> bool {
    from_group(compact::rewrite_of(before, RewriteView::Plain, marks, table), g, g.versions.len() as int, m)
}

/// The items under the key of a record are those of its retained versions.
proof fn lemma_items_of_key(
    before: &State,
    marks: Seq<u64>,
    sources: Seq<Source>,
    table: Seq<char>,
    id: Seq<char>,
    vs: Seq<VersionView>,
)
    requires
        before.wf(),
        compact::is_sources(before, RewriteView::Plain, sources),
        forall|i: int| 0 <= i < sources.len() ==> compact::source_ok(before, RewriteView::Plain, marks, #[trigger] sources[i]),
        before.table_view(table) is Some,
        ({
            let key = version::key_of(encode_utf8(table), encode_utf8(id));
            if before.index.holds(key) {
                exists|j: int, q: int|
                    0 <= j < sources.len() && sources[j].table == table && 0 <= q < sources[j].groups.len()
                        && #[trigger] sources[j].groups[q] == (GroupView { id: encode_utf8(id), versions: vs })
            } else {
                vs == Seq::<VersionView>::empty()
            }
        }),
    ensures
        ({
            let key = version::key_of(encode_utf8(table), encode_utf8(id));
            let items = compact::all_items(before, RewriteView::Plain, marks, sources, sources.len() as int);
            let g = GroupView { id: encode_utf8(id), versions: vs };
            &&& forall|m: ItemView| #[trigger] items.contains(m) && m.key == key ==> item_of(before, marks, table, g, m)
            &&& forall|m: ItemView| #[trigger] item_of(before, marks, table, g, m) ==> items.contains(m)
            &&& group_readable(compact::rewrite_of(before, RewriteView::Plain, marks, table), g)
        }),
{
    let rw = RewriteView::Plain;
    let key = version::key_of(encode_utf8(table), encode_utf8(id));
    let n = sources.len() as int;
    let items = compact::all_items(before, rw, marks, sources, n);
    let g = GroupView { id: encode_utf8(id), versions: vs };
    let w = compact::rewrite_of(before, rw, marks, table);
    lemma_all_items(before, rw, marks, sources, n);
    before.lemma_table(table);
    assert forall|m: ItemView| #[trigger] items.contains(m) && m.key == key implies item_of(before, marks, table, g, m) by {
        let j = choose|j: int| #[trigger] source_at(before, rw, marks, sources, n, j, m);
        let s = sources[j];
        let ws = compact::rewrite_of(before, rw, marks, s.table);
        let q = choose|q: int| #[trigger] table_source(ws, s.groups, s.groups.len() as int, q, m);
        let gq = s.groups[q];
        let i = choose|i: int| #[trigger] group_source(ws, gq, gq.versions.len() as int, i, m);
        assert(compact::is_source(before, rw, sources[j]));
        assert(before.table_view(s.table) is Some);
        before.lemma_table(s.table);
        assert(ws.out() == s.table);
        version::lemma_key_injective(encode_utf8(s.table), gq.id, encode_utf8(table), encode_utf8(id));
        bytes::lemma_utf8_injective(s.table, table);
        assert(before.index.is_record(encode_utf8(s.table), None, s.groups[q]));
        assert(before.index.holds(key));
        let (j2, q2) = choose|j2: int, q2: int|
            0 <= j2 < sources.len() && sources[j2].table == table && 0 <= q2 < sources[j2].groups.len()
                && #[trigger] sources[j2].groups[q2] == g;
        bytes::lemma_lex_irreflexive(encode_utf8(table));
        bytes::lemma_lex_irreflexive(encode_utf8(id));
        if j < j2 {
            assert(bytes::lex_lt(encode_utf8(sources[j].table), encode_utf8(sources[j2].table)));
        }
        if j2 < j {
            assert(bytes::lex_lt(encode_utf8(sources[j2].table), encode_utf8(sources[j].table)));
        }
        assert(j == j2);
        if q < q2 {
            assert(bytes::lex_lt(s.groups[q].id, s.groups[q2].id));
        }
        if q2 < q {
            assert(bytes::lex_lt(s.groups[q2].id, s.groups[q].id));
        }
        assert(gq == g);
    }
    if before.index.holds(key) {
        let (j, q) = choose|j: int, q: int|
            0 <= j < sources.len() && sources[j].table == table && 0 <= q < sources[j].groups.len()
                && #[trigger] sources[j].groups[q] == g;
        assert(compact::source_ok(before, rw, marks, sources[j]));
        lemma_table_items(w, sources[j].groups, sources[j].groups.len() as int);
        assert(group_readable(w, sources[j].groups[q]));
        assert forall|m: ItemView| #[trigger] item_of(before, marks, table, g, m) implies items.contains(m) by {
            assert(table_source(w, sources[j].groups, sources[j].groups.len() as int, q, m));
            assert(source_at(before, rw, marks, sources, n, j, m));
        }
    }
}

/// The item at `k` of the rewrite, as the version that the new run has of it.
proof fn lemma_item_content(
    before: &State,
    after: &State,
    marks: Seq<u64>,
    r: Rewritten,
    table: Seq<char>,
    g: GroupView,
    i: int,
    m: ItemView,
    at: u64,
)
    requires
        after.images() == seq![SegmentView { id: r.segment, image: r.image@ }],
        segwrite::located_at(m, at, r.image@),
        segwrite::item_fits(m),
        group_source(compact::rewrite_of(before, RewriteView::Plain, marks, table), g, g.versions.len() as int, i, m),
    ensures
        checkpoint_laws::same_content(before.images(), after.images(), g.versions[i], segwrite::placed(m, r.segment, at)),
{
    let images = after.images();
    assert(images.last() == SegmentView { id: r.segment, image: r.image@ });
    assert(segment::image_of(images, r.segment) == Some(r.image@));
    if m.payload is Some {
        let p = m.payload->0;
        assert(p.len() as u32 == p.len());
    }
}

/// The new run has of a record what is to stay of it.
proof fn lemma_record_trimmed(
    before: &State,
    after: &State,
    marks: Seq<u64>,
    sources: Seq<Source>,
    locs: Seq<u64>,
    r: Rewritten,
    bytes: u64,
    table: Seq<char>,
    id: Seq<char>,
) -> (vs: Seq<VersionView>)
    requires
        before.wf(),
        compact::is_rewritten(before, RewriteView::Plain, marks, sources, locs, r),
        compact::rewrite_taken(before, after, r, bytes, false),
        before.table_view(table) is Some,
    ensures
        record_trimmed(
            before,
            after,
            marks,
            version::key_of(encode_utf8(table), encode_utf8(id)),
            before.table_view(table)->0.epoch,
            vs,
        ),
        forall|m: ItemView|
            #[trigger] item_of(before, marks, table, GroupView { id: encode_utf8(id), versions: vs }, m) ==> compact::all_items(
                before,
                RewriteView::Plain,
                marks,
                sources,
                sources.len() as int,
            ).contains(m),
        group_readable(
            compact::rewrite_of(before, RewriteView::Plain, marks, table),
            GroupView { id: encode_utf8(id), versions: vs },
        ),
{
    let rw = RewriteView::Plain;
    let t = encode_utf8(table);
    let key = version::key_of(t, encode_utf8(id));
    let epoch = before.table_view(table)->0.epoch;
    let w = compact::rewrite_of(before, rw, marks, table);
    let items = compact::all_items(before, rw, marks, sources, sources.len() as int);
    before.lemma_table(table);
    assert(compact::owner(before.catalog@, rw, table) is Some);
    assert(compact::has_name(sources, table));
    let j = choose|j: int| 0 <= j < sources.len() && (#[trigger] sources[j]).table == table;
    assert(compact::is_source(before, rw, sources[j]));
    let groups = sources[j].groups;
    let vs = if before.index.holds(key) {
        assert(before.index.has_record(t, encode_utf8(id)));
        let q = choose|q: int| 0 <= q < groups.len() && (#[trigger] groups[q]).id == encode_utf8(id);
        assert(before.index.is_record(t, None, groups[q]));
        assert(sources[j].groups[q] == (GroupView { id: encode_utf8(id), versions: groups[q].versions }));
        groups[q].versions
    } else {
        lemma_unheld(before.index.runs@, key);
        let e = Seq::<VersionView>::empty();
        assert(e + e + e =~= e);
        assert(before.index.entries(key) == Ok::<Seq<VersionView>, Seq<char>>(e));
        e
    };
    let g = GroupView { id: encode_utf8(id), versions: vs };
    lemma_items_of_key(before, marks, sources, table, id, vs);
    lemma_group_items(w, g, vs.len() as int);
    assert(w.epoch == epoch);
    assert(w.out() == table);
    encode_utf8_decode_utf8(id);
    // The rows of the key.
    let rows = r.run.rows();
    let made = segwrite::run_rows(items, locs, r.segment, r.catalog@, items.len() as int);
    let values = paged::values_of(rows, key);
    levels::lemma_entries_of(values);
    assert forall|value: Seq<u8>| #[trigger] values.contains(value) implies exists|k: int|
        #[trigger] segwrite::is_row_of(items, locs, r.segment, r.catalog@, k, (key, value)) by {
        paged::lemma_values_of(rows, key, value);
        paged::lemma_sorted_rows(rows, made, (key, value));
        segwrite::lemma_run_rows(items, locs, r.segment, r.catalog@, items.len() as int, (key, value));
        let k = choose|k: int|
            k < items.len() && #[trigger] segwrite::is_row_of(items, locs, r.segment, r.catalog@, k, (key, value));
        assert(segwrite::is_row_of(items, locs, r.segment, r.catalog@, k, (key, value)));
    }
    if primary::entries_of(values) is Err {
        let i = choose|i: int| 0 <= i < values.len() && version::entry_of(#[trigger] values[i]) is Err;
        assert(values.contains(values[i]));
        let k = choose|k: int| #[trigger] segwrite::is_row_of(items, locs, r.segment, r.catalog@, k, (key, values[i]));
        version::lemma_entry_round_trip(segwrite::placed(items[k], r.segment, locs[k]));
    }
    let list = primary::entries_of(values)->Ok_0;
    let e = Seq::<VersionView>::empty();
    assert(after.index.runs@.drop_last() =~= Seq::<primary::Run>::empty());
    assert(e + list + e + e =~= list);
    assert(primary::run_entries(after.index.runs@.drop_last(), key) == Ok::<Seq<VersionView>, Seq<char>>(e));
    assert(after.index.runs@.last() == after.index.runs@[0]);
    assert(primary::run_entries(after.index.runs@, key) == Ok::<Seq<VersionView>, Seq<char>>(e + list));
    assert(after.index.entries(key) == Ok::<Seq<VersionView>, Seq<char>>(list));
    assert(items.len() > 0 ==> after.images() =~= seq![SegmentView { id: r.segment, image: r.image@ }]);
    assert forall|x: VersionView| #[trigger] list.contains(x) implies exists|i: int|
        #[trigger] compact::retained(vs, marks, epoch, i) && 0 <= i < vs.len() && checkpoint_laws::same_content(
            before.images(),
            after.images(),
            vs[i],
            x,
        ) by {
        let p = list.index_of(x);
        assert(version::entry_of(values[p]) == Ok::<VersionView, Seq<char>>(list[p]));
        assert(values.contains(values[p]));
        let k = choose|k: int| #[trigger] segwrite::is_row_of(items, locs, r.segment, r.catalog@, k, (key, values[p]));
        version::lemma_entry_round_trip(segwrite::placed(items[k], r.segment, locs[k]));
        assert(x == segwrite::placed(items[k], r.segment, locs[k]));
        assert(items.contains(items[k]));
        assert(item_of(before, marks, table, g, items[k]));
        let i = choose|i: int| #[trigger] group_source(w, g, vs.len() as int, i, items[k]);
        lemma_item_content(before, after, marks, r, table, g, i, items[k], locs[k]);
        assert(compact::retained(vs, marks, epoch, i));
    }
    assert forall|i: int| 0 <= i < vs.len() && #[trigger] compact::retained(vs, marks, epoch, i) implies exists|x: VersionView|
        #[trigger] checkpoint_laws::stands_for(list, before.images(), after.images(), vs[i], x) by {
        let p = compact::new_payload(w.images, w.rw, w.table, vs[i])->Ok_0;
        let m = compact::new_item(table, encode_utf8(id), vs[i].version, p);
        assert(group_source(w, g, vs.len() as int, i, m));
        assert(item_of(before, marks, table, g, m));
        assert(items.contains(m));
        let k = items.index_of(m);
        assert(segwrite::located_at(items[k], locs[k], r.image@));
        assert(segwrite::item_fits(items[k]));
        let x = segwrite::placed(m, r.segment, locs[k]);
        let value = version::entry_bytes(x);
        assert(m.version > segwrite::epoch_of(r.catalog@, m.table)) by {
            let c = choose|c: int| 0 <= c < marks.len() && compact::chosen_at(vs, #[trigger] marks[c], epoch, i);
            assert(vs[i].version > epoch);
        }
        assert(segwrite::is_row_of(items, locs, r.segment, r.catalog@, k, (key, value)));
        segwrite::lemma_run_rows(items, locs, r.segment, r.catalog@, items.len() as int, (key, value));
        paged::lemma_sorted_rows(rows, made, (key, value));
        paged::lemma_values_of(rows, key, value);
        assert(values.contains(value));
        let y = values.index_of(value);
        version::lemma_entry_round_trip(x);
        assert(version::entry_of(values[y]) == Ok::<VersionView, Seq<char>>(list[y]));
        assert(list[y] == x);
        lemma_item_content(before, after, marks, r, table, g, i, m, locs[k]);
        assert(checkpoint_laws::stands_for(list, before.images(), after.images(), vs[i], x));
    }
    vs
}

/// Compaction changes nothing that a reader at one of its marks gets, whatever
/// versions, segments and blobs it drops.
pub proof fn lemma_compaction_keeps_rows(
    before: &State,
    after: &State,
    marks: Seq<u64>,
    sources: Seq<Source>,
    locs: Seq<u64>,
    r: Rewritten,
    bytes: u64,
    table: Seq<char>,
    id: Seq<char>,
    q: int,
)
    requires
        before.wf(),
        before.versions_ok(),
        compact::is_rewritten(before, RewriteView::Plain, marks, sources, locs, r),
        compact::rewrite_taken(before, after, r, bytes, false),
        before.table_view(table) is Some,
        0 <= q < marks.len(),
    ensures
        after.row(table, id, marks[q]) == before.row(table, id, marks[q]),
{
    let rw = RewriteView::Plain;
    let key = version::key_of(encode_utf8(table), encode_utf8(id));
    let t = before.table_view(table)->0;
    let vs = lemma_record_trimmed(before, after, marks, sources, locs, r, bytes, table, id);
    let old_list = before.index.entries(key)->Ok_0;
    let list = after.index.entries(key)->Ok_0;
    lemma_trimmed(old_list, vs, marks, t.epoch, before.images(), after.images(), list, q);
    assert(after.catalog@ == before.catalog@);
    let a = live(state::current(old_list, marks[q], t.epoch));
    let b = live(state::current(list, marks[q], t.epoch));
    if a is Some {
        let v = a->0;
        let x = b->0;
        let i = choose|i: int| 0 <= i < vs.len() && #[trigger] compact::retained(vs, marks, t.epoch, i) && vs[i] == v;
        let w = compact::rewrite_of(before, rw, marks, table);
        let g = GroupView { id: encode_utf8(id), versions: vs };
        lemma_group_items(w, g, vs.len() as int);
        assert(compact::retained(g.versions, w.marks, w.epoch, i));
        let p = compact::new_payload(w.images, w.rw, w.table, vs[i])->Ok_0;
        let m = compact::new_item(w.out(), g.id, vs[i].version, p);
        assert(group_source(w, g, vs.len() as int, i, m));
        assert(item_of(before, marks, table, g, m));
        let items = compact::all_items(before, rw, marks, sources, sources.len() as int);
        assert(items.contains(m));
        let k = items.index_of(m);
        assert(compact::refs_readable(items[k]));
        assert(segment::payload_of(before.images(), v.kind) == Ok::<Option<Seq<u8>>, ErrorView>(p));
        if p is Some {
            let buf = p->0;
            assert forall|name: Seq<u8>| #[trigger] compact::refers_to(buf, name) implies r.keep@.contains(name) by {
                assert(compact::item_mentions(items[k], name));
                assert(compact::mentions(items, items.len() as int, name));
            }
            lemma_unreferenced_blobs(buf, before.blobs@, r.keep@);
        }
    }
}

/// Every version that a compaction keeps is one that cannot be told from a
/// version that its record had before.
pub proof fn lemma_compaction_holds(
    before: &State,
    after: &State,
    marks: Seq<u64>,
    sources: Seq<Source>,
    locs: Seq<u64>,
    r: Rewritten,
    bytes: u64,
    table: Seq<char>,
    id: Seq<char>,
)
    requires
        before.wf(),
        compact::is_rewritten(before, RewriteView::Plain, marks, sources, locs, r),
        compact::rewrite_taken(before, after, r, bytes, false),
        before.table_view(table) is Some,
    ensures
        checkpoint_laws::held_before(before, after, table, id),
{
    let key = version::key_of(encode_utf8(table), encode_utf8(id));
    let t = before.table_view(table)->0;
    let vs = lemma_record_trimmed(before, after, marks, sources, locs, r, bytes, table, id);
    let old_list = before.index.entries(key)->Ok_0;
    let list = after.index.entries(key)->Ok_0;
    assert forall|w: VersionView| #[trigger] list.contains(w) implies exists|v: VersionView|
        old_list.contains(v) && #[trigger] checkpoint_laws::same_content(before.images(), after.images(), v, w) by {
        let i = choose|i: int|
            #[trigger] compact::retained(vs, marks, t.epoch, i) && 0 <= i < vs.len() && checkpoint_laws::same_content(
                before.images(),
                after.images(),
                vs[i],
                w,
            );
        assert(old_list.contains(vs[i]));
    }
}

/// A compaction keeps nothing beyond what its marks need: every version that is
/// there after it was the newest at or before some mark, and a deletion stays
/// only where an older put stays that it deletes.
pub proof fn lemma_compaction_minimal(
    before: &State,
    after: &State,
    marks: Seq<u64>,
    sources: Seq<Source>,
    locs: Seq<u64>,
    r: Rewritten,
    bytes: u64,
    table: Seq<char>,
    id: Seq<char>,
    x: VersionView,
)
    requires
        before.wf(),
        before.versions_ok(),
        compact::is_rewritten(before, RewriteView::Plain, marks, sources, locs, r),
        compact::rewrite_taken(before, after, r, bytes, false),
        before.table_view(table) is Some,
        after.versions(table, encode_utf8(id)) matches Ok(list) && list.contains(x),
    ensures
        exists|q: int| #[trigger] needed(before, table, id, marks, q, x),
        x.kind.is_tombstone() ==> exists|y: VersionView|
            after.versions(table, encode_utf8(id))->Ok_0.contains(y) && (#[trigger] y.kind.is_tombstone()) == false && y.version < x.version,
{
    let key = version::key_of(encode_utf8(table), encode_utf8(id));
    let epoch = before.table_view(table)->0.epoch;
    let vs = lemma_record_trimmed(before, after, marks, sources, locs, r, bytes, table, id);
    let old_list = before.index.entries(key)->Ok_0;
    let list = after.index.entries(key)->Ok_0;
    let i = choose|i: int|
        #[trigger] compact::retained(vs, marks, epoch, i) && 0 <= i < vs.len() && checkpoint_laws::same_content(
            before.images(),
            after.images(),
            vs[i],
            x,
        );
    let q = choose|q: int| 0 <= q < marks.len() && compact::chosen_at(vs, #[trigger] marks[q], epoch, i);
    lemma_chosen_is_current(old_list, vs, marks[q], epoch, i);
    assert(needed(before, table, id, marks, q, x));
    if x.kind.is_tombstone() {
        let j = choose|j: int| 0 <= j < i && #[trigger] compact::selected_put(vs, marks, epoch, j);
        assert(compact::retained(vs, marks, epoch, j));
        let y = choose|y: VersionView| #[trigger] checkpoint_laws::stands_for(list, before.images(), after.images(), vs[j], y);
        assert(vs[j].version < vs[i].version);
        assert(list.contains(y) && y.kind.is_tombstone() == false);
    }
}

/// A reader at a mark saw a version with this number.
pub open spec fn needed(before: &State, table: Seq<char>, id: Seq<char>, marks: Seq<u64>, q: int, x: VersionView) -> bool {
    0 <= q < marks.len() && (before.visible(table, encode_utf8(id), marks[q]) matches Ok(Some(v)) && v.version == x.version
        && v.kind.is_tombstone() == x.kind.is_tombstone())
}

proof fn lemma_chosen_is_current(old_list: Seq<VersionView>, vs: Seq<VersionView>, mark: u64, epoch: u64, i: int)
    requires
        primary::consistent(old_list),
        primary::is_group(vs, old_list),
        compact::chosen_at(vs, mark, epoch, i),
    ensures
        state::current(old_list, mark, epoch) == Some(vs[i]),
{
    primary::lemma_newest_of(old_list, mark);
    assert(old_list.contains(vs[i]));
    let a = old_list.index_of(vs[i]);
    assert(old_list[a].version <= mark);
    let b = primary::newest_of(old_list, mark)->0;
    let c = old_list.index_of(b);
    assert(primary::has_version(vs, old_list[c].version));
    let k = choose|k: int| 0 <= k < vs.len() && (#[trigger] vs[k]).version == b.version;
    if k > i {
        assert(!(epoch < vs[k].version <= mark));
    }
    if k < i {
        assert(vs[k].version < vs[i].version);
    }
    assert(old_list[a] == old_list[c]);
}

// ---- When a compaction is owed ----------------------------------------------

/// Every version of a listed record can be read and written again.
pub open spec fn group_sound(images: Seq<SegmentView>, table: Seq<char>, g: GroupView) -> bool {
    forall|i: int|
        0 <= i < g.versions.len() ==> match segment::payload_of(images, (#[trigger] g.versions[i]).kind) {
            Err(_) => false,
            Ok(None) => encode_utf8(table).len() <= u16::MAX && g.id.len() <= u16::MAX,
            Ok(Some(p)) => encode_utf8(table).len() <= u16::MAX && g.id.len() <= u16::MAX && p.len() <= u32::MAX
                && payload::blob_refs(p) is Ok,
        }
}

/// Every record of every table can be read.
pub open spec fn store_sound(st: &State) -> bool {
    &&& st.index.sound()
    &&& forall|table: Seq<char>, g: GroupView|
        st.table_view(table) is Some && #[trigger] st.index.is_record(encode_utf8(table), None, g) ==> group_sound(
            st.images(),
            table,
            g,
        )
}

proof fn lemma_group_items_ok(w: RewriteOf, g: GroupView, n: int)
    requires
        0 <= n <= g.versions.len(),
        w.rw == RewriteView::Plain,
        group_sound(w.images, w.table, g),
    ensures
        compact::group_items(w, g, n) is Ok,
    decreases n,
{
    if n > 0 {
        lemma_group_items_ok(w, g, n - 1);
        assert(segment::payload_of(w.images, g.versions[n - 1].kind) is Ok);
    }
}

proof fn lemma_table_items_ok(w: RewriteOf, groups: Seq<GroupView>, n: int)
    requires
        0 <= n <= groups.len(),
        w.rw == RewriteView::Plain,
        forall|q: int| 0 <= q < groups.len() ==> group_sound(w.images, w.table, #[trigger] groups[q]),
    ensures
        compact::table_items(w, groups, n) is Ok,
    decreases n,
{
    if n > 0 {
        lemma_table_items_ok(w, groups, n - 1);
        assert(group_sound(w.images, w.table, groups[n - 1]));
        lemma_group_items_ok(w, groups[n - 1], groups[n - 1].versions.len() as int);
    }
}

/// A compaction of a store whose records can all be read is never refused.
pub proof fn lemma_compaction_owed(st: &State, marks: Seq<u64>, e: ErrorView)
    requires
        st.wf(),
        store_sound(st),
    ensures
        !compact::rewrite_error(st, RewriteView::Plain, marks, e),
{
    let rw = RewriteView::Plain;
    assert forall|name: Seq<char>| !(#[trigger] compact::source_fault(st, rw, marks, name, e)) by {
        if compact::source_fault(st, rw, marks, name, e) {
            let w = compact::rewrite_of(st, rw, marks, name);
            assert(st.table_view(name) is Some);
            let t = encode_utf8(name);
            if exists|key: Seq<u8>, m: Seq<char>| #[trigger] st.index.is_fault(t, key, m) && e == ErrorView::Corrupt(m) {
                let (key, m) = choose|key: Seq<u8>, m: Seq<char>| #[trigger] st.index.is_fault(t, key, m) && e == ErrorView::Corrupt(m);
                assert(st.index.holds(key));
            } else {
                let groups = choose|groups: Seq<GroupView>| #[trigger] compact::items_fault(st, w, groups, e);
                assert forall|q: int| 0 <= q < groups.len() implies group_sound(w.images, w.table, #[trigger] groups[q]) by {
                    assert(st.index.is_record(t, None, groups[q]));
                }
                lemma_table_items_ok(w, groups, groups.len() as int);
            }
        }
    }
    assert forall|sources: Seq<Source>, k: int|
        #[trigger] compact::is_sources(st, rw, sources) && 0 <= k < compact::all_items(
            st,
            rw,
            marks,
            sources,
            sources.len() as int,
        ).len() implies !compact::item_fault(#[trigger] compact::all_items(st, rw, marks, sources, sources.len() as int)[k], e) by {
        let n = sources.len() as int;
        let items = compact::all_items(st, rw, marks, sources, n);
        assert forall|i: int| 0 <= i < n implies compact::source_ok(st, rw, marks, #[trigger] sources[i]) by {
            assert(compact::is_source(st, rw, sources[i]));
            let w = compact::rewrite_of(st, rw, marks, sources[i].table);
            let groups = sources[i].groups;
            assert forall|q: int| 0 <= q < groups.len() implies group_sound(w.images, w.table, #[trigger] groups[q]) by {
                assert(st.index.is_record(encode_utf8(sources[i].table), None, groups[q]));
            }
            lemma_table_items_ok(w, groups, groups.len() as int);
        }
        lemma_all_items(st, rw, marks, sources, n);
        let m = items[k];
        assert(items.contains(m));
        let j = choose|j: int| #[trigger] source_at(st, rw, marks, sources, n, j, m);
        let s = sources[j];
        let w = compact::rewrite_of(st, rw, marks, s.table);
        let q = choose|q: int| #[trigger] table_source(w, s.groups, s.groups.len() as int, q, m);
        let g = s.groups[q];
        let i = choose|i: int| #[trigger] group_source(w, g, g.versions.len() as int, i, m);
        assert(compact::is_source(st, rw, sources[j]));
        assert(st.index.is_record(encode_utf8(s.table), None, s.groups[q]));
        assert(group_sound(st.images(), s.table, g));
        assert(segment::payload_of(st.images(), g.versions[i].kind) is Ok);
        decode_utf8_encode_utf8(g.id);
    }
}

} // verus!
