//! What a look through segments and resident records finds: the records that
//! have the value now.

use crate::disk::{self, Disk};
use crate::error::ErrorView;
use crate::find::{self, HitView};
use crate::find_laws::{finds, has_now};
use crate::lookup_laws::{ids_once, is_row};
use crate::marks;
use crate::pairs;
use crate::primary;
use crate::reads;
use crate::record;
use crate::recover::FoundView;
use crate::schema::TableView;
use crate::segment::{self, EntryView};
use crate::state::{self, State};
use crate::value::{self, ValueView};
use crate::version::{self, VersionView};
use vstd::prelude::*;
use vstd::utf8::*;

verus! {

/// The payload of a version that the table counts has fields with distinct
/// names.
pub open spec fn version_plain(st: &State, table: Seq<char>, id: Seq<char>, v: VersionView) -> bool {
    st.table_view(table) is Some && (st.versions(table, encode_utf8(id)) matches Ok(s) && s.contains(v)) && v.version > st.epoch_of(
        table,
    ) ==> (segment::payload_of(
        st.images(),
        v.kind,
    ) matches Ok(Some(p)) ==> record::names_apart(p))
}

/// Every stored record has fields with distinct names, as the encoder writes
/// them.
pub open spec fn payloads_plain(st: &State) -> bool {
    forall|table: Seq<char>, id: Seq<char>, v: VersionView| #[trigger] version_plain(st, table, id, v)
}

proof fn lemma_with_hit(done: Seq<HitView>, h: Option<HitView>, id: Seq<char>)
    ensures
        finds(find::with_hit(done, h), id) <==> finds(done, id) || (h matches Some(x) && x.id == id),
{
    let now = find::with_hit(done, h);
    if finds(done, id) {
        let i = choose|i: int| 0 <= i < done.len() && (#[trigger] done[i]).id == id;
        assert(now[i].id == id);
    }
    if h is Some && h->0.id == id {
        assert(now[done.len() as int].id == id);
    }
    if finds(now, id) {
        let i = choose|i: int| 0 <= i < now.len() && (#[trigger] now[i]).id == id;
        if i < done.len() {
            assert(done[i] == now[i]);
        }
    }
}

// ---- Segments ---------------------------------------------------------------

/// An entry of a segment is a hit with this id.
pub open spec fn entry_finds(st: &State, t: TableView, segment: u32, e: EntryView, column: Seq<char>, v: ValueView, id: Seq<char>) -> bool {
    find::entry_hit(st, t, segment, e, column, v) matches Ok(Some(h)) && h.id == id
}

#[verifier::spinoff_prover]
#[verifier::rlimit(60)]
proof fn lemma_segment_hits(
    st: &State,
    t: TableView,
    segment: u32,
    data: Seq<u8>,
    pos: int,
    column: Seq<char>,
    v: ValueView,
    done: Seq<HitView>,
    id: Seq<char>,
)
    requires
        0 <= pos <= data.len(),
        segment::entries_from(data, pos, segment).1 == data.len(),
        find::segment_hits(st, t, segment, data, pos, column, v, done) is Ok,
    ensures
        ({
            let list = segment::entries_from(data, pos, segment).0;
            let hits = find::segment_hits(st, t, segment, data, pos, column, v, done)->Ok_0;
            &&& finds(hits, id) <==> finds(done, id) || exists|a: int|
                0 <= a < list.len() && entry_finds(st, t, segment, #[trigger] list[a], column, v, id)
            &&& forall|a: int| 0 <= a < list.len() ==> find::entry_hit(st, t, segment, #[trigger] list[a], column, v) is Ok
        }),
    decreases data.len() - pos,
{
    if pos < data.len() {
        let list = segment::entries_from(data, pos, segment).0;
        let (e, end) = segment::entry_at(data, pos, segment)->Ok_0;
        let next = segment::after_entry(data, pos, segment);
        let h = find::entry_hit(st, t, segment, e, column, v)->Ok_0;
        let rest = segment::entries_from(data, next, segment).0;
        let more = find::with_hit(done, h);
        lemma_segment_hits(st, t, segment, data, next, column, v, more, id);
        lemma_with_hit(done, h, id);
        assert(list == seq![e] + rest);
        assert(list[0] == e);
        assert forall|a: int| 0 <= a < list.len() implies find::entry_hit(st, t, segment, #[trigger] list[a], column, v) is Ok by {
            if a > 0 {
                assert(list[a] == rest[a - 1]);
            }
        }
        if exists|a: int| 0 <= a < rest.len() && entry_finds(st, t, segment, #[trigger] rest[a], column, v, id) {
            let a = choose|a: int| 0 <= a < rest.len() && entry_finds(st, t, segment, #[trigger] rest[a], column, v, id);
            assert(list[a + 1] == rest[a]);
        }
        if exists|a: int| 0 <= a < list.len() && entry_finds(st, t, segment, #[trigger] list[a], column, v, id) {
            let a = choose|a: int| 0 <= a < list.len() && entry_finds(st, t, segment, #[trigger] list[a], column, v, id);
            if a > 0 {
                assert(rest[a - 1] == list[a]);
            }
        }
    }
}

/// An entry at a place of the segments is a hit with this id.
pub open spec fn place_finds(st: &State, t: TableView, column: Seq<char>, v: ValueView, k: int, a: int, id: Seq<char>) -> bool {
    let d = marks::stored(st);
    d.place(k, a) && entry_finds(st, t, d.segments[k].id, d.list(k)[a], column, v, id)
}

#[verifier::spinoff_prover]
#[verifier::rlimit(60)]
proof fn lemma_one_segment(st: &State, t: TableView, k: int, column: Seq<char>, v: ValueView, done: Seq<HitView>, id: Seq<char>)
    requires
        st.listed(),
        0 <= k < st.metas@.len(),
        find::one_segment(st, t, st.metas@[k], column, v, done) is Ok,
    ensures
        ({
            let hits = find::one_segment(st, t, st.metas@[k], column, v, done)->Ok_0;
            let d = marks::stored(st);
            &&& finds(hits, id) <==> finds(done, id) || exists|a: int| #[trigger] place_finds(st, t, column, v, k, a, id)
            &&& forall|a: int|
                0 <= a < d.list(k).len() ==> find::entry_hit(st, t, d.segments[k].id, #[trigger] d.list(k)[a], column, v) is Ok
        }),
{
    let d = marks::stored(st);
    let meta = st.metas@[k];
    let image = d.segments[k].image;
    assert(disk::segment_whole(d.segments[k]));
    assert(meta.id == d.segments[k].id && meta.len == image.len());
    assert forall|l: int| 0 <= l < d.segments.len() && (#[trigger] d.segments[l]).id == d.segments[k].id implies l == k by {}
    disk::lemma_image_of(d.segments, k);
    assert(image.subrange(0, meta.len as int) =~= image);
    lemma_segment_hits(st, t, meta.id, image, 0, column, v, done, id);
    let list = d.list(k);
    if exists|a: int| 0 <= a < list.len() && entry_finds(st, t, meta.id, #[trigger] list[a], column, v, id) {
        let a = choose|a: int| 0 <= a < list.len() && entry_finds(st, t, meta.id, #[trigger] list[a], column, v, id);
        assert(place_finds(st, t, column, v, k, a, id));
    }
    if exists|a: int| #[trigger] place_finds(st, t, column, v, k, a, id) {
        let a = choose|a: int| #[trigger] place_finds(st, t, column, v, k, a, id);
        assert(entry_finds(st, t, meta.id, list[a], column, v, id));
    }
}

#[verifier::spinoff_prover]
#[verifier::rlimit(60)]
proof fn lemma_stored_hits(st: &State, t: TableView, column: Seq<char>, v: ValueView, n: int, id: Seq<char>)
    requires
        st.listed(),
        0 <= n <= st.metas@.len(),
        find::stored_hits(st, t, column, v, n) is Ok,
    ensures
        ({
            let hits = find::stored_hits(st, t, column, v, n)->Ok_0;
            let d = marks::stored(st);
            &&& finds(hits, id) <==> exists|k: int, a: int| k < n && #[trigger] place_finds(st, t, column, v, k, a, id)
            &&& forall|k: int, a: int|
                k < n && #[trigger] d.place(k, a) ==> find::entry_hit(st, t, d.segments[k].id, d.list(k)[a], column, v) is Ok
        }),
    decreases n,
{
    let d = marks::stored(st);
    if n > 0 {
        lemma_stored_hits(st, t, column, v, n - 1, id);
        let done = find::stored_hits(st, t, column, v, n - 1)->Ok_0;
        lemma_one_segment(st, t, n - 1, column, v, done, id);
        let hits = find::stored_hits(st, t, column, v, n)->Ok_0;
        assert forall|k: int, a: int| k < n && #[trigger] d.place(k, a) implies find::entry_hit(
            st,
            t,
            d.segments[k].id,
            d.list(k)[a],
            column,
            v,
        ) is Ok by {}
        if finds(hits, id) {
            if finds(done, id) {
                let (k, a) = choose|k: int, a: int| k < n - 1 && #[trigger] place_finds(st, t, column, v, k, a, id);
                assert(k < n && place_finds(st, t, column, v, k, a, id));
            } else {
                let a = choose|a: int| #[trigger] place_finds(st, t, column, v, n - 1, a, id);
                assert(n - 1 < n && place_finds(st, t, column, v, n - 1, a, id));
            }
        }
        if exists|k: int, a: int| k < n && #[trigger] place_finds(st, t, column, v, k, a, id) {
            let (k, a) = choose|k: int, a: int| k < n && #[trigger] place_finds(st, t, column, v, k, a, id);
            if k < n - 1 {
                assert(k < n - 1 && place_finds(st, t, column, v, k, a, id));
            }
        }
    } else {
        assert(!finds(Seq::<HitView>::empty(), id));
    }
}

// ---- Resident records -------------------------------------------------------

/// A resident record is a hit with this id.
pub open spec fn pair_finds(
    st: &State,
    t: TableView,
    over: Option<Map<Seq<u8>, Seq<VersionView>>>,
    s: Seq<(Seq<u8>, Seq<VersionView>)>,
    column: Seq<char>,
    v: ValueView,
    p: int,
    id: Seq<char>,
) -> bool {
    0 <= p < s.len() && (find::resident_hit(st, t, over, s[p].0, s[p].1, column, v) matches Ok(Some(h)) && h.id == id)
}

#[verifier::spinoff_prover]
#[verifier::rlimit(60)]
proof fn lemma_resident_hits(
    st: &State,
    t: TableView,
    over: Option<Map<Seq<u8>, Seq<VersionView>>>,
    s: Seq<(Seq<u8>, Seq<VersionView>)>,
    column: Seq<char>,
    v: ValueView,
    done: Seq<HitView>,
    n: int,
    id: Seq<char>,
)
    requires
        0 <= n <= s.len(),
        find::resident_hits(st, t, over, s, column, v, done, n) is Ok,
    ensures
        ({
            let hits = find::resident_hits(st, t, over, s, column, v, done, n)->Ok_0;
            &&& finds(hits, id) <==> finds(done, id) || exists|p: int| p < n && #[trigger] pair_finds(st, t, over, s, column, v, p, id)
            &&& forall|p: int| 0 <= p < n ==> find::resident_hit(st, t, over, (#[trigger] s[p]).0, s[p].1, column, v) is Ok
        }),
    decreases n,
{
    if n > 0 {
        lemma_resident_hits(st, t, over, s, column, v, done, n - 1, id);
        let before = find::resident_hits(st, t, over, s, column, v, done, n - 1)->Ok_0;
        let one = find::resident_hit(st, t, over, s[n - 1].0, s[n - 1].1, column, v);
        let hits = find::resident_hits(st, t, over, s, column, v, done, n)->Ok_0;
        assert(one is Ok && hits == find::with_hit(before, one->Ok_0));
        lemma_with_hit(before, one->Ok_0, id);
        assert(pair_finds(st, t, over, s, column, v, n - 1, id) <==> (one->Ok_0 is Some && one->Ok_0->0.id == id));
        assert forall|p: int| 0 <= p < n implies find::resident_hit(st, t, over, (#[trigger] s[p]).0, s[p].1, column, v) is Ok by {
            if p == n - 1 {
                assert(one is Ok);
            }
        }
        if finds(hits, id) && !finds(done, id) {
            if finds(before, id) {
                let p = choose|p: int| p < n - 1 && #[trigger] pair_finds(st, t, over, s, column, v, p, id);
                assert(p < n && pair_finds(st, t, over, s, column, v, p, id));
            } else {
                assert(n - 1 < n && pair_finds(st, t, over, s, column, v, n - 1, id));
            }
        }
        if exists|p: int| p < n && #[trigger] pair_finds(st, t, over, s, column, v, p, id) {
            let p = choose|p: int| p < n && #[trigger] pair_finds(st, t, over, s, column, v, p, id);
            if p < n - 1 {
                assert(p < n - 1 && pair_finds(st, t, over, s, column, v, p, id));
            }
        }
    }
}

/// A payload is a hit exactly when its record has the value.
proof fn lemma_payload_hit(st: &State, t: TableView, at: Seq<u8>, payload: Seq<u8>, column: Seq<char>, v: ValueView, id: Seq<char>)
    requires
        valid_utf8(at),
        record::names_apart(payload),
        find::payload_hit(st, t, at, payload, column, v) is Ok,
    ensures
        (find::payload_hit(st, t, at, payload, column, v) matches Ok(Some(h)) && h.id == id) <==> at == encode_utf8(id) && (
        record::decoded(payload, st.blobs@) matches Ok(rec) && find::record_has(rec, column, v)),
{
    decode_utf8_encode_utf8(at);
    encode_utf8_decode_utf8(id);
    if record::decoded(payload, st.blobs@) is Ok {
        record::lemma_matches_record(payload, st.blobs@, encode_utf8(column), reads::ordinal_of(t, column), v);
    }
}

/// The last past an epoch of rising versions is their newest one past it.
proof fn lemma_last_past(s: Seq<VersionView>, epoch: u64)
    requires
        disk::rising(s),
    ensures
        match find::last_past(s, epoch) {
            Some(v) => s.contains(v) && v.version > epoch && forall|w: VersionView| #[trigger] s.contains(w) ==> w.version <= v.version,
            None => forall|w: VersionView| #[trigger] s.contains(w) ==> w.version <= epoch,
        },
{
    if s.len() > 0 {
        let last = s[s.len() - 1];
        assert forall|w: VersionView| #[trigger] s.contains(w) implies w.version <= last.version by {
            let i = s.index_of(w);
            if i < s.len() - 1 {
                assert(s[i].version < s[s.len() - 1].version);
            }
        }
        if last.version <= epoch {
            lemma_none_past(s, epoch);
        } else {
            assert(s.contains(last));
        }
    }
}

proof fn lemma_none_past(s: Seq<VersionView>, epoch: u64)
    requires
        disk::rising(s),
        s.len() > 0 ==> s.last().version <= epoch,
    ensures
        find::last_past(s, epoch) is None,
    decreases s.len(),
{
    if s.len() > 0 {
        let u = s.drop_last();
        assert forall|i: int, j: int| 0 <= i < j < u.len() implies (#[trigger] u[i]).version < (#[trigger] u[j]).version by {
            assert(s[i].version < s[j].version);
        }
        if u.len() > 0 {
            assert(s[u.len() - 1].version < s[s.len() - 1].version);
        }
        lemma_none_past(u, epoch);
    }
}

/// The newest version of a record, by where it stands.
#[verifier::spinoff_prover]
#[verifier::rlimit(60)]
proof fn lemma_newest_layer(runs: Seq<VersionView>, f: Seq<VersionView>, a: Seq<VersionView>, epoch: u64)
    requires
        marks::layered(runs, f, a),
        primary::consistent(runs + f + a),
    ensures
        ({
            let now = state::current(runs + f + a, u64::MAX, epoch);
            &&& find::last_past(a, epoch) matches Some(v) ==> now == Some(v)
            &&& a.len() == 0 && find::last_past(f, epoch) is Some ==> now == find::last_past(f, epoch)
            &&& now is Some && a.contains(now->0) ==> find::last_past(a, epoch) == now
            &&& now is Some && f.contains(now->0) ==> find::last_past(f, epoch) == now && a.len() == 0
        }),
{
    let s = runs + f + a;
    crate::checkpoint_laws::lemma_concat_contains(runs, f);
    crate::checkpoint_laws::lemma_concat_contains(runs + f, a);
    primary::lemma_newest_of(s, u64::MAX);
    lemma_last_past(a, epoch);
    lemma_last_past(f, epoch);
    assert forall|v: VersionView| s.contains(v) <==> runs.contains(v) || f.contains(v) || a.contains(v) by {
        assert((runs + f).contains(v) <==> runs.contains(v) || f.contains(v));
    }
    assert forall|v: VersionView| #[trigger] s.contains(v) implies primary::newest_of(s, u64::MAX) is Some && v.version
        <= primary::newest_of(s, u64::MAX)->0.version by {
        let i = s.index_of(v);
        assert(s[i].version <= u64::MAX);
    }
    assert forall|v: VersionView, w: VersionView| #[trigger] s.contains(v) && #[trigger] s.contains(w) && v.version == w.version implies v
        == w by {
        let i = s.index_of(v);
        let j = s.index_of(w);
        assert(s[i] == s[j]);
    }
    if find::last_past(a, epoch) is Some {
        let v = find::last_past(a, epoch)->0;
        let x = primary::newest_of(s, u64::MAX)->0;
        assert(s.contains(v) && s.contains(x));
        assert(x.version <= v.version);
    }
    if a.len() == 0 && find::last_past(f, epoch) is Some {
        let v = find::last_past(f, epoch)->0;
        let x = primary::newest_of(s, u64::MAX)->0;
        assert(s.contains(v) && s.contains(x));
        assert(x.version <= v.version);
    }
    if state::current(s, u64::MAX, epoch) is Some {
        let v = state::current(s, u64::MAX, epoch)->0;
        if a.contains(v) {
            let w = find::last_past(a, epoch)->0;
            assert(s.contains(w) && s.contains(v));
        }
        if f.contains(v) {
            if a.len() > 0 {
                assert(a.contains(a[0]));
                assert(s.contains(a[0]));
            }
            let w = find::last_past(f, epoch)->0;
            assert(s.contains(w) && s.contains(v));
        }
    }
}

// ---- The law ----------------------------------------------------------------

/// An entry that is a hit is the record's newest version, and has the value.
#[verifier::spinoff_prover]
#[verifier::rlimit(60)]
proof fn lemma_place_now(st: &State, t: TableView, column: Seq<char>, v: ValueView, k: int, a: int, id: Seq<char>)
    requires
        st.inv(),
        st.marks_ok(),
        payloads_plain(st),
        st.table_view(t.name) == Some(t),
        place_finds(st, t, column, v, k, a, id),
    ensures
        has_now(st, t, encode_utf8(id), column, v),
        ({
            let d = marks::stored(st);
            let u = st.latest(t.name, encode_utf8(id))->Ok_0->0;
            &&& d.at(k, a).key == version::key_of(encode_utf8(t.name), encode_utf8(id))
            &&& d.at(k, a).entry.version == u.version
            &&& u.kind is SegPut
            &&& segment::payload_of(st.images(), u.kind) == Ok::<Option<Seq<u8>>, ErrorView>(Some(d.list(k)[a].payload))
        }),
{
    let d = marks::stored(st);
    let e = d.list(k)[a];
    let segment = d.segments[k].id;
    let w = d.at(k, a).entry;
    reveal(Disk::named);
    decode_utf8_encode_utf8(e.id);
    let name = decode_utf8(e.id);
    let key = version::key_of(encode_utf8(t.name), e.id);
    assert(d.stores(key, w)) by {
        assert(d.place(k, a) && d.at(k, a) == (FoundView { key, entry: w }));
    }
    assert(st.record_listed(t.name, name));
    let s = st.index.entries(key)->Ok_0;
    let u = choose|u: VersionView| s.contains(u) && #[trigger] disk::same_place(d.segments, u, w);
    lemma_entry_payload(st, k, a);
    if st.superseded@.contains(segment) {
        let l = st.latest(t.name, e.id)->Ok_0->0;
        primary::lemma_newest_of(s, u64::MAX);
        let i = s.index_of(u);
        let j = s.index_of(l);
        assert(s[i] == s[j]);
    } else {
        assert(!st.outdated_put(t.name, name, u));
    }
    assert(st.latest(t.name, e.id) == Ok::<Option<VersionView>, Seq<char>>(Some(u)));
    assert(version_plain(st, t.name, name, u));
    lemma_payload_hit(st, t, e.id, e.payload, column, v, id);
}

/// What an entry stands for can be read where it stands.
proof fn lemma_entry_payload(st: &State, k: int, a: int)
    requires
        st.listed(),
        marks::stored(st).place(k, a),
    ensures
        ({
            let d = marks::stored(st);
            let e = d.list(k)[a];
            !e.tombstone ==> segment::payload_of(st.images(), d.at(k, a).entry.kind) == Ok::<Option<Seq<u8>>, ErrorView>(
                Some(e.payload),
            )
        }),
{
    let d = marks::stored(st);
    let s = d.segments[k];
    let e = d.list(k)[a];
    disk::lemma_entries_within(s.image, 0, s.id);
    assert(disk::entry_within(s.image, e));
    assert(disk::segment_whole(d.segments[k]));
    assert forall|l: int| 0 <= l < d.segments.len() && (#[trigger] d.segments[l]).id == d.segments[k].id implies l == k by {}
    disk::lemma_image_of(d.segments, k);
}

/// A stored record that has the value is among the entries that are hits.
#[verifier::spinoff_prover]
#[verifier::rlimit(60)]
proof fn lemma_now_placed(st: &State, t: TableView, column: Seq<char>, v: ValueView, id: Seq<char>)
    requires
        st.inv(),
        st.marks_ok(),
        payloads_plain(st),
        st.table_view(t.name) == Some(t),
        find::stored_hits(st, t, column, v, st.metas@.len() as int) is Ok,
        has_now(st, t, encode_utf8(id), column, v),
        st.latest(t.name, encode_utf8(id))->Ok_0->0.kind is SegPut,
    ensures
        exists|k: int, a: int| k < st.metas@.len() && #[trigger] place_finds(st, t, column, v, k, a, id),
{
    let d = marks::stored(st);
    let key = version::key_of(encode_utf8(t.name), encode_utf8(id));
    let u = st.latest(t.name, encode_utf8(id))->Ok_0->0;
    let s = st.index.entries(key)->Ok_0;
    primary::lemma_newest_of(s, u64::MAX);
    assert(st.record_listed(t.name, id));
    let w = choose|w: VersionView| d.stores(key, w) && #[trigger] disk::same_place(d.segments, u, w);
    let (k, a) = choose|k: int, a: int| #[trigger] d.place(k, a) && d.at(k, a) == (FoundView { key, entry: w });
    let e = d.list(k)[a];
    st.lemma_table(t.name);
    disk::lemma_entries_within(d.segments[k].image, 0, d.segments[k].id);
    assert(disk::entry_within(d.segments[k].image, e));
    version::lemma_key_injective(e.table, e.id, encode_utf8(t.name), encode_utf8(id));
    lemma_entry_payload(st, k, a);
    lemma_stored_hits(st, t, column, v, st.metas@.len() as int, id);
    encode_utf8_valid_utf8(id);
    encode_utf8_decode_utf8(id);
    assert(find::entry_hit(st, t, d.segments[k].id, e, column, v) is Ok);
    assert(find::entry_counts(st, t, d.segments[k].id, e) == Ok::<bool, ErrorView>(true));
    assert(version_plain(st, t.name, id, u));
    lemma_payload_hit(st, t, e.id, e.payload, column, v, id);
    assert(place_finds(st, t, column, v, k, a, id));
}

/// The id of a resident key of a table.
proof fn lemma_resident_key(table: Seq<char>, key: Seq<u8>) -> (id: Seq<char>)
    requires
        encode_utf8(table).len() <= u32::MAX,
        version::key_parts(key) is Ok,
        version::table_prefix(encode_utf8(table)).is_prefix_of(key),
    ensures
        ({
            let p = version::table_prefix(encode_utf8(table)).len() as int;
            &&& key == version::key_of(encode_utf8(table), encode_utf8(id))
            &&& key.subrange(p, key.len() as int) == encode_utf8(id)
        }),
{
    let prefix = version::table_prefix(encode_utf8(table));
    let tail = key.subrange(prefix.len() as int, key.len() as int);
    assert(key =~= prefix + tail);
    crate::find_laws::lemma_id_text(table, tail);
    decode_utf8_encode_utf8(tail);
    decode_utf8(tail)
}

/// What a resident record gives.
#[verifier::spinoff_prover]
#[verifier::rlimit(60)]
proof fn lemma_pair_now(
    st: &State,
    t: TableView,
    frozen: bool,
    s: Seq<(Seq<u8>, Seq<VersionView>)>,
    column: Seq<char>,
    v: ValueView,
    id: Seq<char>,
)
    requires
        st.inv(),
        st.marks_ok(),
        payloads_plain(st),
        st.table_view(t.name) == Some(t),
        pairs::sorted(s),
        pairs::to_map(s) == (if frozen {
            st.index.frozen_map()
        } else {
            st.index.delta@
        }),
        forall|p: int|
            0 <= p < s.len() ==> find::resident_hit(st, t, over_of(st, frozen), (#[trigger] s[p]).0, s[p].1, column, v) is Ok,
    ensures
        (exists|p: int| p < s.len() && #[trigger] pair_finds(st, t, over_of(st, frozen), s, column, v, p, id)) <==> has_now(
            st,
            t,
            encode_utf8(id),
            column,
            v,
        ) && primary::resident(
            pairs::to_map(s),
            version::key_of(encode_utf8(t.name), encode_utf8(id)),
        ).contains(st.latest(t.name, encode_utf8(id))->Ok_0->0),
{
    let over = over_of(st, frozen);
    let prefix = version::table_prefix(encode_utf8(t.name));
    let delta = pairs::to_map(s);
    st.lemma_table(t.name);
    if exists|p: int| p < s.len() && #[trigger] pair_finds(st, t, over, s, column, v, p, id) {
        let p = choose|p: int| p < s.len() && #[trigger] pair_finds(st, t, over, s, column, v, p, id);
        pairs::lemma_to_map_at(s, p);
        let key = s[p].0;
        assert(delta.contains_key(key));
        let name = lemma_resident_key(t.name, key);
        let last = find::last_past(s[p].1, t.epoch)->0;
        assert(st.key_layered(key));
        let runs = primary::run_entries(st.index.runs@, key)->Ok_0;
        let f = primary::resident(st.index.frozen_map(), key);
        let a = primary::resident(st.index.delta@, key);
        assert(st.index.entries(key) == Ok::<Seq<VersionView>, Seq<char>>(runs + f + a));
        lemma_newest_layer(runs, f, a, t.epoch);
        lemma_last_past(s[p].1, t.epoch);
        assert(st.latest(t.name, encode_utf8(name)) == Ok::<Option<VersionView>, Seq<char>>(Some(last)));
        primary::lemma_newest_of(runs + f + a, u64::MAX);
        assert(version_plain(st, t.name, name, last));
        encode_utf8_valid_utf8(name);
        lemma_payload_hit(st, t, encode_utf8(name), last.kind->MemPut_0, column, v, id);
    }
    let key = version::key_of(encode_utf8(t.name), encode_utf8(id));
    if has_now(st, t, encode_utf8(id), column, v) && primary::resident(delta, key).contains(st.latest(t.name, encode_utf8(id))->Ok_0->0) {
        let u = st.latest(t.name, encode_utf8(id))->Ok_0->0;
        assert(delta.contains_key(key));
        let p = pairs::index_of(s, key);
        pairs::lemma_to_map_at(s, p);
        assert(st.key_layered(key));
        let runs = primary::run_entries(st.index.runs@, key)->Ok_0;
        let f = primary::resident(st.index.frozen_map(), key);
        let a = primary::resident(st.index.delta@, key);
        assert(st.index.entries(key) == Ok::<Seq<VersionView>, Seq<char>>(runs + f + a));
        lemma_newest_layer(runs, f, a, t.epoch);
        assert(find::resident_hit(st, t, over, s[p].0, s[p].1, column, v) is Ok);
        assert(key.subrange(0, prefix.len() as int) =~= prefix);
        assert(prefix.is_prefix_of(key));
        assert(key.subrange(prefix.len() as int, key.len() as int) =~= encode_utf8(id));
        primary::lemma_newest_of(runs + f + a, u64::MAX);
        assert(version_plain(st, t.name, id, u));
        encode_utf8_valid_utf8(id);
        lemma_payload_hit(st, t, encode_utf8(id), u.kind->MemPut_0, column, v, id);
        assert(pair_finds(st, t, over, s, column, v, p, id));
    }
}

/// The active records hide frozen ones.
pub open spec fn over_of(st: &State, frozen: bool) -> Option<Map<Seq<u8>, Seq<VersionView>>> {
    if frozen {
        Some(st.index.delta@)
    } else {
        None
    }
}

/// A lookup through the segments and the resident records, which every writable
/// database makes for a column without an index, finds exactly the records that
/// have the value now.
#[verifier::spinoff_prover]
#[verifier::rlimit(60)]
pub proof fn lemma_stream_finds_matches(st: &State, t: TableView, column: Seq<char>, v: ValueView, hits: Seq<HitView>, id: Seq<char>)
    requires
        st.inv(),
        st.marks_ok(),
        payloads_plain(st),
        st.table_view(t.name) == Some(t),
        find::streamed(st, t, column, v) == Ok::<Seq<HitView>, ErrorView>(hits),
    ensures
        finds(hits, id) <==> has_now(st, t, encode_utf8(id), column, v),
{
    let n = st.metas@.len() as int;
    let kept = find::stored_hits(st, t, column, v, n)->Ok_0;
    let active = st.index.delta.pairs();
    let mid = find::resident_hits(st, t, None, active, column, v, kept, active.len() as int)->Ok_0;
    let key = version::key_of(encode_utf8(t.name), encode_utf8(id));
    st.index.delta.lemma_wf();
    lemma_stored_hits(st, t, column, v, n, id);
    lemma_resident_hits(st, t, None, active, column, v, kept, active.len() as int, id);
    lemma_pair_now(st, t, false, active, column, v, id);
    if finds(kept, id) {
        let (k, a) = choose|k: int, a: int| k < n && #[trigger] place_finds(st, t, column, v, k, a, id);
        lemma_place_now(st, t, column, v, k, a, id);
    }
    if st.index.frozen is Some {
        let f = st.index.frozen->0;
        let s = f.delta.pairs();
        f.delta.lemma_wf();
        lemma_resident_hits(st, t, Some(st.index.delta@), s, column, v, mid, s.len() as int, id);
        lemma_pair_now(st, t, true, s, column, v, id);
    }
    if has_now(st, t, encode_utf8(id), column, v) {
        let u = st.latest(t.name, encode_utf8(id))->Ok_0->0;
        assert(st.key_layered(key));
        let runs = primary::run_entries(st.index.runs@, key)->Ok_0;
        let f = primary::resident(st.index.frozen_map(), key);
        let a = primary::resident(st.index.delta@, key);
        crate::checkpoint_laws::lemma_concat_contains(runs, f);
        crate::checkpoint_laws::lemma_concat_contains(runs + f, a);
        primary::lemma_newest_of(runs + f + a, u64::MAX);
        assert((runs + f).contains(u) <==> runs.contains(u) || f.contains(u));
        if runs.contains(u) {
            lemma_now_placed(st, t, column, v, id);
        }
    }
}

/// Reading the listed records gives those of them that are there.
proof fn lemma_listed(st: &State, t: TableView, ids: Seq<Seq<char>>, n: int, id: Seq<char>)
    requires
        0 <= n <= ids.len(),
        find::listed_hits(st, t, ids, n) is Ok,
    ensures
        finds(find::listed_hits(st, t, ids, n)->Ok_0, id) <==> (exists|i: int| 0 <= i < n && #[trigger] ids[i] == id) && st.shows(
            t.name,
            encode_utf8(id),
            u64::MAX,
        ),
    decreases n,
{
    if n > 0 {
        lemma_listed(st, t, ids, n - 1, id);
        let done = find::listed_hits(st, t, ids, n - 1)->Ok_0;
        let now = find::listed_hits(st, t, ids, n)->Ok_0;
        if st.shows(t.name, encode_utf8(ids[n - 1]), u64::MAX) {
            lemma_with_hit(done, Some(now.last()), id);
            assert(now =~= find::with_hit(done, Some(now.last())));
        }
        if exists|i: int| 0 <= i < n && #[trigger] ids[i] == id {
            let i = choose|i: int| 0 <= i < n && #[trigger] ids[i] == id;
            if i < n - 1 {
                assert(ids[i] == id);
            }
        }
    } else {
        assert(!finds(Seq::<HitView>::empty(), id));
    }
}

proof fn lemma_ordered_finds(hits: Seq<HitView>, id: Seq<char>)
    ensures
        finds(find::ordered(hits), id) <==> finds(hits, id),
{
    find::lemma_ordered(hits);
    let out = find::ordered(hits);
    if finds(hits, id) {
        let i = choose|i: int| 0 <= i < hits.len() && (#[trigger] hits[i]).id == id;
        assert(hits.contains(hits[i]));
        hits.to_multiset_ensures();
        out.to_multiset_ensures();
        assert(out.to_multiset().count(hits[i]) > 0);
        assert(out.contains(hits[i]));
        let j = out.index_of(hits[i]);
        assert(out[j].id == id);
    }
    if finds(out, id) {
        let i = choose|i: int| 0 <= i < out.len() && (#[trigger] out[i]).id == id;
        assert(out.contains(out[i]));
        hits.to_multiset_ensures();
        out.to_multiset_ensures();
        assert(hits.to_multiset().count(out[i]) > 0);
        assert(hits.contains(out[i]));
        let j = hits.index_of(out[i]);
        assert(hits[j].id == id);
    }
}

/// A lookup by a value finds exactly the records that have it now, whichever way
/// it goes: through an index that is in step, where the value is told from every
/// other by its stored form; through all records of a database for reading; and
/// through segments and resident records otherwise.
pub proof fn lemma_find_eq_finds(
    st: &State,
    d: Disk,
    read_only: bool,
    t: TableView,
    column: Seq<char>,
    v: ValueView,
    hits: Seq<HitView>,
    id: Seq<char>,
)
    requires
        st.inv(),
        read_only ==> st.index.sound(),
        disk::keeps(d, st),
        st.marked(),
        payloads_plain(st),
        st.table_view(t.name) == Some(t),
        find::has_key(v),
        state::slot_of(st.secondary@, t.name, column) matches Some(slot) ==> crate::commit_laws::index_agrees(
            st,
            st.secondary@[slot],
        ) && crate::find_laws::is_exact(v),
        find::eq_answer(st, read_only, t, column, v, Ok(hits)),
    ensures
        finds(hits, id) <==> has_now(st, t, encode_utf8(id), column, v),
{
    let raw = choose|raw: Result<Seq<HitView>, ErrorView>|
        #[trigger] find::raw_answer(st, read_only, t, column, v, raw) && Ok::<Seq<HitView>, ErrorView>(hits) == find::in_order_result(raw);
    let list = raw->Ok_0;
    lemma_ordered_finds(list, id);
    st.lemma_table(t.name);
    state::lemma_slot_of(st.secondary@, t.name, column);
    match state::slot_of(st.secondary@, t.name, column) {
        Some(slot) => {
            let index = st.secondary@[slot].index;
            let ids = choose|ids: Seq<Seq<char>>|
                #[trigger] index.is_id_list(value::encoded(v), None, None, find::ids_in_bytes(ids)) && raw == find::listed_hits(
                    st,
                    t,
                    ids,
                    ids.len() as int,
                );
            lemma_listed(st, t, ids, ids.len() as int, id);
            crate::find_laws::lemma_index_changes_nothing(st, t, slot, v, ids, id);
            if ids.contains(id) {
                let i = ids.index_of(id);
                assert(ids[i] == id);
            }
        },
        None => {
            if read_only {
                crate::find_laws::lemma_walk_finds_matches(st, t, column, v, list, id);
            } else {
                marks::lemma_kept_listed(d, st);
                lemma_stream_finds_matches(st, t, column, v, list, id);
            }
        },
    }
}

// ---- The records ------------------------------------------------------------

/// A hit of an entry is the record that a read by its id gives.
proof fn lemma_place_row(st: &State, t: TableView, column: Seq<char>, v: ValueView, k: int, a: int)
    requires
        st.inv(),
        st.marks_ok(),
        payloads_plain(st),
        st.table_view(t.name) == Some(t),
        marks::stored(st).place(k, a),
    ensures
        find::entry_hit(st, t, marks::stored(st).segments[k].id, marks::stored(st).list(k)[a], column, v) matches Ok(Some(h)) ==> is_row(
            st,
            t,
            h,
        ),
{
    let d = marks::stored(st);
    if let Ok(Some(h)) = find::entry_hit(st, t, d.segments[k].id, d.list(k)[a], column, v) {
        assert(place_finds(st, t, column, v, k, a, h.id));
        lemma_place_now(st, t, column, v, k, a, h.id);
    }
}

/// One id is the hit of one entry.
proof fn lemma_place_once(st: &State, t: TableView, column: Seq<char>, v: ValueView, k: int, a: int, l: int, b: int, id: Seq<char>)
    requires
        st.inv(),
        st.marks_ok(),
        payloads_plain(st),
        st.table_view(t.name) == Some(t),
        marks::stored(st).sole(),
        place_finds(st, t, column, v, k, a, id),
        place_finds(st, t, column, v, l, b, id),
    ensures
        k == l,
        a == b,
{
    let d = marks::stored(st);
    reveal(Disk::sole);
    lemma_place_now(st, t, column, v, k, a, id);
    lemma_place_now(st, t, column, v, l, b, id);
    assert(d.place(k, a) && d.place(l, b));
}

/// Where the files hold no version twice, the segments of the state hold none
/// twice.
pub proof fn lemma_stored_sole(d: Disk, st: &State)
    requires
        disk::keeps(d, st),
    ensures
        marks::stored(st).sole(),
{
    let e = marks::stored(st);
    reveal(Disk::sole);
    assert forall|k: int, a: int, l: int, b: int|
        #[trigger] e.place(k, a) && #[trigger] e.place(l, b) && e.at(k, a).key == e.at(l, b).key && e.at(k, a).entry.version == e.at(
            l,
            b,
        ).entry.version implies k == l && a == b by {
        assert(d.place(k, a) && d.place(l, b));
        assert(d.at(k, a) == e.at(k, a) && d.at(l, b) == e.at(l, b));
    }
}

/// Hits that are records, each with an id of its own.
pub open spec fn are_rows(st: &State, t: TableView, hits: Seq<HitView>) -> bool {
    &&& forall|i: int| 0 <= i < hits.len() ==> is_row(st, t, #[trigger] hits[i])
    &&& ids_once(hits)
}

proof fn lemma_with_row(st: &State, t: TableView, done: Seq<HitView>, h: Option<HitView>)
    requires
        are_rows(st, t, done),
        h matches Some(x) ==> is_row(st, t, x) && !finds(done, x.id),
    ensures
        are_rows(st, t, find::with_hit(done, h)),
{
    let now = find::with_hit(done, h);
    assert forall|i: int, j: int| 0 <= i < j < now.len() implies (#[trigger] now[i]).id != (#[trigger] now[j]).id by {
        assert(now[i] == done[i]);
        if j < done.len() {
            assert(now[j] == done[j]);
        }
    }
}

#[verifier::spinoff_prover]
#[verifier::rlimit(60)]
proof fn lemma_segment_rows(
    st: &State,
    t: TableView,
    segment: u32,
    data: Seq<u8>,
    pos: int,
    column: Seq<char>,
    v: ValueView,
    done: Seq<HitView>,
)
    requires
        0 <= pos <= data.len(),
        segment::entries_from(data, pos, segment).1 == data.len(),
        find::segment_hits(st, t, segment, data, pos, column, v, done) is Ok,
        are_rows(st, t, done),
        ({
            let list = segment::entries_from(data, pos, segment).0;
            &&& forall|a: int|
                0 <= a < list.len() ==> (find::entry_hit(st, t, segment, #[trigger] list[a], column, v) matches Ok(Some(h)) ==> is_row(st, t, h)
                    && !finds(done, h.id))
            &&& forall|a: int, b: int, id: Seq<char>|
                0 <= a < b < list.len() && #[trigger] entry_finds(st, t, segment, list[a], column, v, id) ==> !(#[trigger] entry_finds(
                    st,
                    t,
                    segment,
                    list[b],
                    column,
                    v,
                    id,
                ))
        }),
    ensures
        are_rows(st, t, find::segment_hits(st, t, segment, data, pos, column, v, done)->Ok_0),
    decreases data.len() - pos,
{
    if pos < data.len() {
        let list = segment::entries_from(data, pos, segment).0;
        let (e, end) = segment::entry_at(data, pos, segment)->Ok_0;
        let next = segment::after_entry(data, pos, segment);
        let h = find::entry_hit(st, t, segment, e, column, v)->Ok_0;
        let rest = segment::entries_from(data, next, segment).0;
        let more = find::with_hit(done, h);
        assert(list == seq![e] + rest);
        assert(list[0] == e);
        lemma_with_row(st, t, done, h);
        assert forall|a: int| 0 <= a < rest.len() implies (find::entry_hit(st, t, segment, #[trigger] rest[a], column, v) matches Ok(Some(x))
            ==> is_row(st, t, x) && !finds(more, x.id)) by {
            assert(list[a + 1] == rest[a]);
            if let Ok(Some(x)) = find::entry_hit(st, t, segment, rest[a], column, v) {
                lemma_with_hit(done, h, x.id);
                assert(entry_finds(st, t, segment, list[a + 1], column, v, x.id));
                assert(!entry_finds(st, t, segment, list[0], column, v, x.id));
            }
        }
        assert forall|a: int, b: int, id: Seq<char>|
            0 <= a < b < rest.len() && #[trigger] entry_finds(st, t, segment, rest[a], column, v, id) implies !(#[trigger] entry_finds(
            st,
            t,
            segment,
            rest[b],
            column,
            v,
            id,
        )) by {
            assert(list[a + 1] == rest[a] && list[b + 1] == rest[b]);
            assert(entry_finds(st, t, segment, list[a + 1], column, v, id));
            assert(!entry_finds(st, t, segment, list[b + 1], column, v, id));
        }
        lemma_segment_rows(st, t, segment, data, next, column, v, more);
    }
}

#[verifier::spinoff_prover]
#[verifier::rlimit(60)]
proof fn lemma_stored_rows(st: &State, t: TableView, column: Seq<char>, v: ValueView, n: int)
    requires
        st.inv(),
        st.marks_ok(),
        payloads_plain(st),
        st.table_view(t.name) == Some(t),
        marks::stored(st).sole(),
        0 <= n <= st.metas@.len(),
        find::stored_hits(st, t, column, v, n) is Ok,
    ensures
        are_rows(st, t, find::stored_hits(st, t, column, v, n)->Ok_0),
    decreases n,
{
    if n > 0 {
        lemma_stored_rows(st, t, column, v, n - 1);
        let done = find::stored_hits(st, t, column, v, n - 1)->Ok_0;
        let d = marks::stored(st);
        let k = n - 1;
        let meta = st.metas@[k];
        let image = d.segments[k].image;
        let list = d.list(k);
        assert(disk::segment_whole(d.segments[k]));
        assert(meta.id == d.segments[k].id && meta.len == image.len());
        assert forall|l: int| 0 <= l < d.segments.len() && (#[trigger] d.segments[l]).id == d.segments[k].id implies l == k by {}
        disk::lemma_image_of(d.segments, k);
        assert(image.subrange(0, meta.len as int) =~= image);
        assert forall|a: int| 0 <= a < list.len() implies (find::entry_hit(st, t, meta.id, #[trigger] list[a], column, v) matches Ok(Some(h))
            ==> is_row(st, t, h) && !finds(done, h.id)) by {
            if let Ok(Some(h)) = find::entry_hit(st, t, meta.id, list[a], column, v) {
                assert(d.place(k, a));
                lemma_place_row(st, t, column, v, k, a);
                assert(place_finds(st, t, column, v, k, a, h.id));
                if finds(done, h.id) {
                    lemma_stored_hits(st, t, column, v, n - 1, h.id);
                    let (l, b) = choose|l: int, b: int| l < n - 1 && #[trigger] place_finds(st, t, column, v, l, b, h.id);
                    lemma_place_once(st, t, column, v, k, a, l, b, h.id);
                }
            }
        }
        assert forall|a: int, b: int, id: Seq<char>|
            0 <= a < b < list.len() && #[trigger] entry_finds(st, t, meta.id, list[a], column, v, id) implies !(#[trigger] entry_finds(
            st,
            t,
            meta.id,
            list[b],
            column,
            v,
            id,
        )) by {
            if entry_finds(st, t, meta.id, list[b], column, v, id) {
                assert(d.place(k, a) && d.place(k, b));
                assert(place_finds(st, t, column, v, k, a, id) && place_finds(st, t, column, v, k, b, id));
                lemma_place_once(st, t, column, v, k, a, k, b, id);
            }
        }
        lemma_segment_rows(st, t, meta.id, image, 0, column, v, done);
    }
}

/// A resident hit is the record that a read by its id gives, and the record is
/// resident.
#[verifier::spinoff_prover]
#[verifier::rlimit(60)]
proof fn lemma_pair_row(
    st: &State,
    t: TableView,
    frozen: bool,
    s: Seq<(Seq<u8>, Seq<VersionView>)>,
    column: Seq<char>,
    v: ValueView,
    p: int,
    h: HitView,
)
    requires
        st.inv(),
        st.marks_ok(),
        payloads_plain(st),
        st.table_view(t.name) == Some(t),
        pairs::sorted(s),
        pairs::to_map(s) == (if frozen {
            st.index.frozen_map()
        } else {
            st.index.delta@
        }),
        0 <= p < s.len(),
        find::resident_hit(st, t, over_of(st, frozen), s[p].0, s[p].1, column, v) == Ok::<Option<HitView>, ErrorView>(Some(h)),
    ensures
        is_row(st, t, h),
        s[p].0 == version::key_of(encode_utf8(t.name), encode_utf8(h.id)),
        pairs::to_map(s).contains_key(s[p].0),
        st.latest(t.name, encode_utf8(h.id)) matches Ok(Some(u)) && u.kind is MemPut,
        frozen ==> !st.index.delta@.contains_key(s[p].0),
{
    let over = over_of(st, frozen);
    st.lemma_table(t.name);
    pairs::lemma_to_map_at(s, p);
    let key = s[p].0;
    let name = lemma_resident_key(t.name, key);
    let last = find::last_past(s[p].1, t.epoch)->0;
    assert(st.key_layered(key));
    let runs = primary::run_entries(st.index.runs@, key)->Ok_0;
    let f = primary::resident(st.index.frozen_map(), key);
    let a = primary::resident(st.index.delta@, key);
    assert(st.index.entries(key) == Ok::<Seq<VersionView>, Seq<char>>(runs + f + a));
    lemma_newest_layer(runs, f, a, t.epoch);
    lemma_last_past(s[p].1, t.epoch);
    assert(st.latest(t.name, encode_utf8(name)) == Ok::<Option<VersionView>, Seq<char>>(Some(last)));
    encode_utf8_valid_utf8(name);
    encode_utf8_decode_utf8(name);
    assert(h.id == name);
}

#[verifier::spinoff_prover]
#[verifier::rlimit(60)]
proof fn lemma_resident_rows(
    st: &State,
    t: TableView,
    frozen: bool,
    s: Seq<(Seq<u8>, Seq<VersionView>)>,
    column: Seq<char>,
    v: ValueView,
    done: Seq<HitView>,
    n: int,
)
    requires
        st.inv(),
        st.marks_ok(),
        payloads_plain(st),
        st.table_view(t.name) == Some(t),
        pairs::sorted(s),
        pairs::to_map(s) == (if frozen {
            st.index.frozen_map()
        } else {
            st.index.delta@
        }),
        0 <= n <= s.len(),
        find::resident_hits(st, t, over_of(st, frozen), s, column, v, done, n) is Ok,
        are_rows(st, t, done),
        forall|p: int, id: Seq<char>|
            #[trigger] pair_finds(st, t, over_of(st, frozen), s, column, v, p, id) ==> !finds(done, id),
    ensures
        are_rows(st, t, find::resident_hits(st, t, over_of(st, frozen), s, column, v, done, n)->Ok_0),
    decreases n,
{
    let over = over_of(st, frozen);
    if n > 0 {
        lemma_resident_rows(st, t, frozen, s, column, v, done, n - 1);
        let before = find::resident_hits(st, t, over, s, column, v, done, n - 1)->Ok_0;
        let one = find::resident_hit(st, t, over, s[n - 1].0, s[n - 1].1, column, v);
        assert(one is Ok);
        if let Some(h) = one->Ok_0 {
            lemma_pair_row(st, t, frozen, s, column, v, n - 1, h);
            assert(pair_finds(st, t, over, s, column, v, n - 1, h.id));
            lemma_resident_hits(st, t, over, s, column, v, done, n - 1, h.id);
            if finds(before, h.id) {
                let p = choose|p: int| p < n - 1 && #[trigger] pair_finds(st, t, over, s, column, v, p, h.id);
                let other = find::resident_hit(st, t, over, s[p].0, s[p].1, column, v)->Ok_0->0;
                lemma_pair_row(st, t, frozen, s, column, v, p, other);
                crate::bytes::lemma_lex_irreflexive(s[p].0);
                assert(crate::bytes::lex_lt(s[p].0, s[n - 1].0));
            }
        }
        lemma_with_row(st, t, before, one->Ok_0);
    }
}

/// A lookup through the segments and the resident records gives records as reads
/// by their ids give them, each once.
#[verifier::spinoff_prover]
#[verifier::rlimit(60)]
pub proof fn lemma_stream_rows(st: &State, t: TableView, column: Seq<char>, v: ValueView, hits: Seq<HitView>)
    requires
        st.inv(),
        st.marks_ok(),
        payloads_plain(st),
        st.table_view(t.name) == Some(t),
        marks::stored(st).sole(),
        find::streamed(st, t, column, v) == Ok::<Seq<HitView>, ErrorView>(hits),
    ensures
        forall|i: int| 0 <= i < hits.len() ==> is_row(st, t, #[trigger] hits[i]),
        ids_once(hits),
{
    let n = st.metas@.len() as int;
    let kept = find::stored_hits(st, t, column, v, n)->Ok_0;
    let active = st.index.delta.pairs();
    let mid = find::resident_hits(st, t, None, active, column, v, kept, active.len() as int)->Ok_0;
    st.index.delta.lemma_wf();
    lemma_stored_rows(st, t, column, v, n);
    assert forall|p: int, id: Seq<char>| #[trigger] pair_finds(st, t, None, active, column, v, p, id) implies !finds(kept, id) by {
        let h = find::resident_hit(st, t, None, active[p].0, active[p].1, column, v)->Ok_0->0;
        lemma_pair_row(st, t, false, active, column, v, p, h);
        lemma_stored_once(st, t, column, v, id);
    }
    lemma_resident_rows(st, t, false, active, column, v, kept, active.len() as int);
    if st.index.frozen is Some {
        let f = st.index.frozen->0;
        let s = f.delta.pairs();
        f.delta.lemma_wf();
        let over = Some(st.index.delta@);
        assert forall|p: int, id: Seq<char>| #[trigger] pair_finds(st, t, over, s, column, v, p, id) implies !finds(mid, id) by {
            let h = find::resident_hit(st, t, over, s[p].0, s[p].1, column, v)->Ok_0->0;
            lemma_pair_row(st, t, true, s, column, v, p, h);
            lemma_stored_once(st, t, column, v, id);
            lemma_resident_hits(st, t, None, active, column, v, kept, active.len() as int, id);
            if finds(mid, id) {
                let q = choose|q: int| q < active.len() && #[trigger] pair_finds(st, t, None, active, column, v, q, id);
                let other = find::resident_hit(st, t, None, active[q].0, active[q].1, column, v)->Ok_0->0;
                lemma_pair_row(st, t, false, active, column, v, q, other);
            }
        }
        lemma_resident_rows(st, t, true, s, column, v, mid, s.len() as int);
    }
}

/// A stored hit is no resident record.
proof fn lemma_stored_once(st: &State, t: TableView, column: Seq<char>, v: ValueView, id: Seq<char>)
    requires
        st.inv(),
        st.marks_ok(),
        payloads_plain(st),
        st.table_view(t.name) == Some(t),
        find::stored_hits(st, t, column, v, st.metas@.len() as int) is Ok,
        st.latest(t.name, encode_utf8(id)) matches Ok(Some(u)) && u.kind is MemPut,
    ensures
        !finds(find::stored_hits(st, t, column, v, st.metas@.len() as int)->Ok_0, id),
{
    let n = st.metas@.len() as int;
    lemma_stored_hits(st, t, column, v, n, id);
    if finds(find::stored_hits(st, t, column, v, n)->Ok_0, id) {
        let (k, a) = choose|k: int, a: int| k < n && #[trigger] place_finds(st, t, column, v, k, a, id);
        lemma_place_now(st, t, column, v, k, a, id);
    }
}

} // verus!
