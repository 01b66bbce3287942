//! What a reader gets: the record of one id, all records of a table, and the
//! records of a batch.

use crate::bytes;
use crate::error::ErrorView;
use crate::find::HitView;
use crate::index_laws;
use crate::primary;
use crate::reads::{self, FilterView, FoundView, ScanBatch};
use crate::record::{self, RecordView};
use crate::scan;
use crate::schema::TableView;
use crate::segment;
use crate::state::{self, State};
use crate::stream_laws::{self, payloads_plain};
use crate::value::{self, ValueView};
use crate::version::VersionView;
use vstd::prelude::*;
use vstd::utf8::*;

verus! {

// ---- One record -------------------------------------------------------------

/// The version is the newest of a record that a reader at `max` may see: none of
/// the record's versions up to `max` is newer, and it is newer than the table.
pub open spec fn is_seen(st: &State, t: TableView, id: Seq<char>, max: u64, v: VersionView) -> bool {
    st.versions(t.name, encode_utf8(id)) matches Ok(s) && s.contains(v) && t.epoch < v.version <= max && forall|k: int|
        0 <= k < s.len() && (#[trigger] s[k]).version <= max ==> s[k].version <= v.version
}

/// A reader at a version gets what the newest version up to it holds: nothing
/// where that is a deletion or where there is none, and else the stored record,
/// with the id among its fields where the table has no column for it.
pub proof fn lemma_reader_gets_newest(st: &State, t: TableView, id: Seq<char>, max: u64)
    requires
        st.table_view(t.name) == Some(t),
    ensures
        match st.row(t.name, id, max) {
            Err(_) => true,
            Ok(None) => forall|v: VersionView| #[trigger] is_seen(st, t, id, max, v) ==> exists|w: VersionView|
                #[trigger] is_seen(st, t, id, max, w) && w.kind.is_tombstone(),
            Ok(Some(rec)) => exists|v: VersionView| {
                &&& #[trigger] is_seen(st, t, id, max, v)
                &&& !v.kind.is_tombstone()
                &&& segment::record_of(st.images(), st.blobs@, v.kind) is Ok
                &&& forall|name: Seq<u8>| {
                    let stored = segment::record_of(st.images(), st.blobs@, v.kind)->Ok_0;
                    if t.implicit_id && name == record::id_key() {
                        #[trigger] rec.contains_key(name) && rec[name] == ValueView::Text(id)
                    } else {
                        rec.contains_key(name) == stored.contains_key(name) && (stored.contains_key(name) ==> rec[name] == stored[name])
                    }
                }
            },
        },
{
    if let Ok(s) = st.versions(t.name, encode_utf8(id)) {
        primary::lemma_newest_of(s, max);
        match primary::newest_of(s, max) {
            Some(v) => {
                if v.version > t.epoch {
                    assert(is_seen(st, t, id, max, v));
                } else {
                    assert forall|w: VersionView| !(#[trigger] is_seen(st, t, id, max, w)) by {
                        if is_seen(st, t, id, max, w) {
                            let k = s.index_of(w);
                            assert(s[k].version <= max);
                        }
                    }
                }
            },
            None => {
                assert forall|w: VersionView| !(#[trigger] is_seen(st, t, id, max, w)) by {
                    if is_seen(st, t, id, max, w) {
                        let k = s.index_of(w);
                        assert(s[k].version > max);
                    }
                }
            },
        }
        match st.row(t.name, id, max) {
            Ok(Some(rec)) => {
                let v = primary::newest_of(s, max)->0;
                let stored = segment::record_of(st.images(), st.blobs@, v.kind)->Ok_0;
                assert(rec == state::with_id(t, stored, id));
            },
            _ => {},
        }
    }
}

/// A record with only some columns has those of them that it has, each with its
/// value, the id beside the columns, and nothing else.
pub proof fn lemma_kept_columns(t: TableView, rec: RecordView, names: Seq<Seq<char>>, name: Seq<char>)
    ensures
        ({
            let out = state::kept(t, rec, Some(names));
            let key = encode_utf8(name);
            &&& names.contains(name) || (t.implicit_id && name == crate::schema::id_name()) ==> out.contains_key(key) == rec.contains_key(key)
            &&& !names.contains(name) && !(t.implicit_id && name == crate::schema::id_name()) ==> !out.contains_key(key)
            &&& out.contains_key(key) ==> out[key] == rec[key]
            &&& state::kept(t, rec, None) == rec
        }),
{
    let key = encode_utf8(name);
    if names.contains(name) {
        let i = names.index_of(name);
        assert(encode_utf8(names[i]) == key);
    } else {
        assert forall|i: int| 0 <= i < names.len() implies encode_utf8(#[trigger] names[i]) != key by {
            if encode_utf8(names[i]) == key {
                bytes::lemma_utf8_injective(names[i], name);
                assert(names.contains(name));
            }
        }
        if key == record::id_key() {
            bytes::lemma_utf8_injective(name, crate::schema::id_name());
        }
    }
}

// ---- All records ------------------------------------------------------------

pub open spec fn has_hit(hits: Seq<HitView>, id: Seq<char>) -> bool {
    exists|i: int| 0 <= i < hits.len() && (#[trigger] hits[i]).id == id
}

/// A scan gives every record that its reader sees and no other, each once and as
/// a read by its id gives it, in the order of the ids.
pub proof fn lemma_scan_gives_all(st: &State, t: TableView, max: u64, hits: Seq<HitView>, id: Seq<char>)
    requires
        st.table_view(t.name) == Some(t),
        scan::is_scan(st, t, max, hits),
    ensures
        forall|i: int|
            0 <= i < hits.len() ==> st.row(t.name, (#[trigger] hits[i]).id, max) == Ok::<Option<RecordView>, ErrorView>(Some(hits[i].record)),
        forall|i: int, j: int|
            0 <= i < j < hits.len() ==> bytes::lex_lt(encode_utf8((#[trigger] hits[i]).id), encode_utf8((#[trigger] hits[j]).id)),
        st.row(t.name, id, max) is Ok && st.row(t.name, id, max)->Ok_0 is Some ==> has_hit(hits, id),
{
    reveal(scan::is_scan);
    let rows = choose|rows: Seq<FoundView>| #[trigger] scan::all_rows(st, t, max, rows) && scan::rows_read(st, t, rows, hits);
    assert forall|i: int| 0 <= i < hits.len() implies st.row(t.name, (#[trigger] hits[i]).id, max) == Ok::<Option<RecordView>, ErrorView>(
        Some(hits[i].record),
    ) by {
        assert(st.is_found(t, None, max, None, rows[i]));
        assert(scan::row_read(st, t, rows[i], hits[i]));
    }
    assert forall|i: int, j: int| 0 <= i < j < hits.len() implies bytes::lex_lt(
        encode_utf8((#[trigger] hits[i]).id),
        encode_utf8((#[trigger] hits[j]).id),
    ) by {
        assert(scan::row_read(st, t, rows[i], hits[i]));
        assert(scan::row_read(st, t, rows[j], hits[j]));
        assert(bytes::lex_lt(encode_utf8(rows[i].id), encode_utf8(rows[j].id)));
    }
    if st.row(t.name, id, max) is Ok && st.row(t.name, id, max)->Ok_0 is Some {
        assert(st.is_hit(t, encode_utf8(id), max, None));
        let k = choose|k: int| 0 <= k < rows.len() && encode_utf8((#[trigger] rows[k]).id) == encode_utf8(id);
        bytes::lemma_utf8_injective(rows[k].id, id);
        assert(scan::row_read(st, t, rows[k], hits[k]));
        assert(hits[k].id == id);
    }
}

// ---- A batch ----------------------------------------------------------------

/// The record has the value that a scan asks for.
pub open spec fn meets(rec: RecordView, filter: Option<FilterView>) -> bool {
    filter matches Some(f) ==> rec.contains_key(encode_utf8(f.column)) && value::value_eq(rec[encode_utf8(f.column)], f.value)
}

proof fn lemma_hit_meets(st: &State, t: TableView, id: Seq<char>, max: u64, filter: Option<FilterView>)
    requires
        st.table_view(t.name) == Some(t),
        payloads_plain(st),
        filter is Some ==> index_laws::stored_column(t, filter->0.column),
        st.row(t.name, id, max) is Ok,
    ensures
        st.is_hit(t, encode_utf8(id), max, filter) <==> st.row(t.name, id, max)->Ok_0 is Some && meets(
            st.row(t.name, id, max)->Ok_0->0,
            filter,
        ),
{
    if let Ok(Some(rec)) = st.row(t.name, id, max) {
        let v = st.visible(t.name, encode_utf8(id), max)->Ok_0->0;
        let s = st.versions(t.name, encode_utf8(id))->Ok_0;
        primary::lemma_newest_of(s, max);
        if let Some(f) = filter {
            let name = encode_utf8(f.column);
            let p = segment::payload_of(st.images(), v.kind)->Ok_0->0;
            assert(stream_laws::version_plain(st, t.name, id, v));
            record::lemma_matches_record(p, st.blobs@, name, reads::ordinal_of(t, f.column), f.value);
            let stored = record::decoded(p, st.blobs@)->Ok_0;
            assert(rec == state::with_id(t, stored, id));
            assert(rec.contains_key(name) == stored.contains_key(name));
            if stored.contains_key(name) {
                assert(rec[name] == stored[name]);
            }
        }
    }
}

pub open spec fn batch_has(b: ScanBatch, id: Seq<char>) -> bool {
    exists|i: int| 0 <= i < b.ids@.len() && (#[trigger] b.ids@[i])@ == id
}

/// What a scan gives for a batch.
pub open spec fn is_batch_of(
    st: &State,
    t: TableView,
    after: Option<Seq<char>>,
    max: u64,
    limit: int,
    budget: Option<usize>,
    filter: Option<FilterView>,
    found: Seq<FoundView>,
    last: Option<Seq<char>>,
    b: ScanBatch,
) -> bool {
    &&& st.is_prepared(t, after, max, reads::row_limit(limit, budget), filter, found, last)
    &&& st.taken(t, found, budget, Seq::empty(), 0) matches Ok(recs) && b.holds(found, recs, last)
}

/// A record qualifies for a batch: its reader sees it, it has the value that is
/// asked for, and it stands after the cursor.
pub open spec fn qualifies(st: &State, t: TableView, after: Option<Seq<char>>, max: u64, filter: Option<FilterView>, id: Seq<char>) -> bool {
    &&& st.row(t.name, id, max) matches Ok(Some(rec)) && meets(rec, filter)
    &&& after matches Some(a) ==> bytes::lex_lt(encode_utf8(a), encode_utf8(id))
}

/// A batch of a scan has at most as many rows as were asked for; each is the
/// record that its reader sees under its id, and qualifies; the ids rise; and
/// nothing is passed over: every record that qualifies stands in the batch, or
/// after the cursor of the next one.
pub proof fn lemma_batch_passes_nothing_over(
    st: &State,
    t: TableView,
    after: Option<Seq<char>>,
    max: u64,
    limit: int,
    budget: Option<usize>,
    filter: Option<FilterView>,
    found: Seq<FoundView>,
    last: Option<Seq<char>>,
    b: ScanBatch,
    id: Seq<char>,
)
    requires
        st.table_view(t.name) == Some(t),
        payloads_plain(st),
        filter is Some ==> index_laws::stored_column(t, filter->0.column),
        limit > 0,
        is_batch_of(st, t, after, max, limit, budget, filter, found, last, b),
    ensures
        b.rows@.len() == b.ids@.len() <= limit,
        forall|i: int|
            0 <= i < b.ids@.len() ==> qualifies(st, t, after, max, filter, (#[trigger] b.ids@[i])@) && st.row(t.name, b.ids@[i]@, max) == Ok::<
                Option<RecordView>,
                ErrorView,
            >(Some(b.rows@[i]@)),
        forall|i: int, j: int|
            0 <= i < j < b.ids@.len() ==> bytes::lex_lt(encode_utf8((#[trigger] b.ids@[i])@), encode_utf8((#[trigger] b.ids@[j])@)),
        qualifies(st, t, after, max, filter, id) ==> batch_has(b, id) || (b.next is Some && bytes::lex_lt(
            encode_utf8(b.next->0@),
            encode_utf8(id),
        )),
{
    lemma_batch_rows(st, t, after, max, limit, budget, filter, found, last, b);
    if qualifies(st, t, after, max, filter, id) {
        lemma_batch_covers(st, t, after, max, limit, budget, filter, found, last, b, id);
    }
}

#[verifier::spinoff_prover]
proof fn lemma_batch_rows(
    st: &State,
    t: TableView,
    after: Option<Seq<char>>,
    max: u64,
    limit: int,
    budget: Option<usize>,
    filter: Option<FilterView>,
    found: Seq<FoundView>,
    last: Option<Seq<char>>,
    b: ScanBatch,
)
    requires
        st.table_view(t.name) == Some(t),
        payloads_plain(st),
        filter is Some ==> index_laws::stored_column(t, filter->0.column),
        limit > 0,
        is_batch_of(st, t, after, max, limit, budget, filter, found, last, b),
    ensures
        b.rows@.len() == b.ids@.len() <= limit,
        forall|i: int|
            0 <= i < b.ids@.len() ==> qualifies(st, t, after, max, filter, (#[trigger] b.ids@[i])@) && st.row(t.name, b.ids@[i]@, max) == Ok::<
                Option<RecordView>,
                ErrorView,
            >(Some(b.rows@[i]@)),
        forall|i: int, j: int|
            0 <= i < j < b.ids@.len() ==> bytes::lex_lt(encode_utf8((#[trigger] b.ids@[i])@), encode_utf8((#[trigger] b.ids@[j])@)),
{
    let recs = st.taken(t, found, budget, Seq::empty(), 0)->Ok_0;
    lemma_taken_reads(st, t, found, budget, Seq::empty(), 0, after, max, filter);
    assert(reads::records(b.rows@) == recs);
    assert forall|i: int| 0 <= i < b.ids@.len() implies qualifies(st, t, after, max, filter, (#[trigger] b.ids@[i])@) && st.row(
        t.name,
        b.ids@[i]@,
        max,
    ) == Ok::<Option<RecordView>, ErrorView>(Some(b.rows@[i]@)) by {
        assert(recs[i] == b.rows@[i]@);
        assert(b.ids@[i]@ == found[i].id);
        assert(st.is_found(t, after, max, filter, found[i]));
        lemma_hit_meets(st, t, found[i].id, max, filter);
    }
    assert forall|i: int, j: int| 0 <= i < j < b.ids@.len() implies bytes::lex_lt(
        encode_utf8((#[trigger] b.ids@[i])@),
        encode_utf8((#[trigger] b.ids@[j])@),
    ) by {
        assert(b.ids@[i]@ == found[i].id && b.ids@[j]@ == found[j].id);
        assert(bytes::lex_lt(encode_utf8(found[i].id), encode_utf8(found[j].id)));
    }
}

#[verifier::spinoff_prover]
#[verifier::rlimit(40)]
proof fn lemma_batch_covers(
    st: &State,
    t: TableView,
    after: Option<Seq<char>>,
    max: u64,
    limit: int,
    budget: Option<usize>,
    filter: Option<FilterView>,
    found: Seq<FoundView>,
    last: Option<Seq<char>>,
    b: ScanBatch,
    id: Seq<char>,
)
    requires
        st.table_view(t.name) == Some(t),
        payloads_plain(st),
        filter is Some ==> index_laws::stored_column(t, filter->0.column),
        limit > 0,
        is_batch_of(st, t, after, max, limit, budget, filter, found, last, b),
        qualifies(st, t, after, max, filter, id),
    ensures
        batch_has(b, id) || (b.next is Some && bytes::lex_lt(encode_utf8(b.next->0@), encode_utf8(id))),
{
    let recs = st.taken(t, found, budget, Seq::empty(), 0)->Ok_0;
    let key = encode_utf8(id);
    lemma_taken_reads(st, t, found, budget, Seq::empty(), 0, after, max, filter);
    lemma_hit_meets(st, t, id, max, filter);
    assert(st.is_hit(t, key, max, filter) && reads::past_last(after, key));
    assert(reads::row_limit(limit, budget) > 0);
    if reads::has_id(found, key) {
        let k = choose|k: int| 0 <= k < found.len() && encode_utf8((#[trigger] found[k]).id) == key;
        bytes::lemma_utf8_injective(found[k].id, id);
        if k < recs.len() {
            assert(b.ids@[k]@ == id);
        } else {
            assert(recs.len() > 0);
            assert(bytes::lex_lt(encode_utf8(found[recs.len() - 1].id), encode_utf8(found[k].id)));
        }
    } else {
        assert(found.len() == reads::row_limit(limit, budget));
        assert(found.len() > 0 && recs.len() > 0);
        assert(reads::past_last(last, key));
        if recs.len() < found.len() {
            let n = recs.len() - 1;
            let end = encode_utf8(found[found.len() - 1].id);
            assert(bytes::lex_lt(encode_utf8(found[n].id), end));
            assert(bytes::lex_le(end, encode_utf8(last->0)));
            if end != encode_utf8(last->0) {
                bytes::lemma_lex_transitive(end, encode_utf8(last->0), key);
            }
            bytes::lemma_lex_transitive(encode_utf8(found[n].id), end, key);
        }
    }
}

proof fn lemma_taken_reads(
    st: &State,
    t: TableView,
    found: Seq<FoundView>,
    budget: Option<usize>,
    done: Seq<RecordView>,
    used: int,
    after: Option<Seq<char>>,
    max: u64,
    filter: Option<FilterView>,
)
    requires
        st.table_view(t.name) == Some(t),
        done.len() <= found.len(),
        st.taken(t, found, budget, done, used) is Ok,
        st.rows_found(t, after, max, filter, found),
        forall|i: int|
            0 <= i < done.len() ==> st.row(t.name, (#[trigger] found[i]).id, max) == Ok::<Option<RecordView>, ErrorView>(Some(done[i])),
    ensures
        ({
            let recs = st.taken(t, found, budget, done, used)->Ok_0;
            &&& recs.len() <= found.len()
            &&& forall|i: int|
                0 <= i < recs.len() ==> st.row(t.name, (#[trigger] found[i]).id, max) == Ok::<Option<RecordView>, ErrorView>(Some(recs[i]))
            &&& done.len() == 0 && found.len() > 0 ==> recs.len() > 0
            &&& recs.len() >= done.len()
        }),
    decreases found.len() - done.len(),
{
    if done.len() < found.len() {
        let f = found[done.len() as int];
        assert(st.is_found(t, after, max, filter, f));
        if let Ok(Some((rec, more))) = st.row_cost(t, f, budget, used, done.len() == 0) {
            let next = done.push(rec);
            assert forall|i: int| 0 <= i < next.len() implies st.row(t.name, (#[trigger] found[i]).id, max) == Ok::<
                Option<RecordView>,
                ErrorView,
            >(Some(next[i])) by {
                if i < done.len() {
                    assert(next[i] == done[i]);
                }
            }
            lemma_taken_reads(st, t, found, budget, next, more, after, max, filter);
        }
    }
}

// ---- What a batch may take --------------------------------------------------

/// What the first `n` rows of a batch are reckoned to take.
pub open spec fn spent(found: Seq<FoundView>, recs: Seq<RecordView>, n: int) -> int
    decreases n,
{
    if n <= 0 {
        0
    } else {
        spent(found, recs, n - 1) + record::capped(reads::decoded_size(recs[n - 1]) + encode_utf8(found[n - 1].id).len() + 64)
    }
}

proof fn lemma_spent_same(found: Seq<FoundView>, a: Seq<RecordView>, b: Seq<RecordView>, n: int)
    requires
        forall|i: int| 0 <= i < n ==> a[i] == b[i],
    ensures
        spent(found, a, n) == spent(found, b, n),
    decreases n,
{
    if n > 0 {
        lemma_spent_same(found, a, b, n - 1);
    }
}

proof fn lemma_taken_spends(st: &State, t: TableView, found: Seq<FoundView>, b: usize, done: Seq<RecordView>, used: int)
    requires
        done.len() <= found.len(),
        st.taken(t, found, Some(b), done, used) is Ok,
        used == spent(found, done, done.len() as int) <= b,
    ensures
        ({
            let recs = st.taken(t, found, Some(b), done, used)->Ok_0;
            &&& done.len() <= recs.len() <= found.len()
            &&& forall|i: int| 0 <= i < done.len() ==> recs[i] == done[i]
            &&& spent(found, recs, recs.len() as int) <= b
        }),
    decreases found.len() - done.len(),
{
    if done.len() < found.len() {
        let f = found[done.len() as int];
        if let Ok(Some((rec, more))) = st.row_cost(t, f, Some(b), used, done.len() == 0) {
            let next = done.push(rec);
            lemma_spent_same(found, done, next, done.len() as int);
            lemma_taken_spends(st, t, found, b, next, more);
            let recs = st.taken(t, found, Some(b), done, used)->Ok_0;
            assert forall|i: int| 0 <= i < done.len() implies recs[i] == done[i] by {
                assert(next[i] == done[i]);
            }
        }
    }
}

/// The rows of a batch with a budget take no more than the budget together.
pub proof fn lemma_batch_within_budget(st: &State, t: TableView, found: Seq<FoundView>, b: usize, recs: Seq<RecordView>)
    requires
        st.taken(t, found, Some(b), Seq::empty(), 0) == Ok::<Seq<RecordView>, ErrorView>(recs),
    ensures
        spent(found, recs, recs.len() as int) <= b,
        recs.len() <= found.len(),
{
    lemma_taken_spends(st, t, found, b, Seq::empty(), 0);
}

/// A batch without a budget has every row that was found.
pub proof fn lemma_batch_without_budget(st: &State, t: TableView, found: Seq<FoundView>, done: Seq<RecordView>, used: int)
    requires
        done.len() <= found.len(),
        st.taken(t, found, None, done, used) is Ok,
    ensures
        st.taken(t, found, None, done, used)->Ok_0.len() == found.len(),
    decreases found.len() - done.len(),
{
    if done.len() < found.len() {
        let f = found[done.len() as int];
        if let Ok(Some((rec, more))) = st.row_cost(t, f, None, used, done.len() == 0) {
            lemma_batch_without_budget(st, t, found, done.push(rec), more);
        }
    }
}

} // verus!
