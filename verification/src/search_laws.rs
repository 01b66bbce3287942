//! What the hits of a search are: the first of the ranked candidates that are
//! there and pass the filter, in the order of the ranking.

use crate::error::ErrorView;
use crate::find::{self, HitView};
use crate::record::{self, RecordView};
use crate::schema::{self, TableView};
use crate::search::{self, KeptView, StandingView, VectorCount, VectorSearch};
use crate::segment;
use crate::state::State;
use crate::value::{self, ColumnType, ValueView};
use vstd::prelude::*;
use vstd::utf8::*;

verus! {

// ---- Hits among candidates --------------------------------------------------

/// The record has, under every name of the filter, a value equal to the one that
/// the filter gives; a field that is not there is null, and the primary key is
/// compared as text.
pub open spec fn meets(rec: RecordView, id: Seq<char>, filter: Option<RecordView>) -> bool {
    filter matches Some(f) ==> forall|name: Seq<u8>| #[trigger] f.contains_key(name) ==> if name == record::id_key() {
        f[name] == ValueView::Text(id)
    } else if rec.contains_key(name) {
        value::value_eq(rec[name], f[name])
    } else {
        f[name] == ValueView::Null
    }
}

/// The record of an id is there now, and meets the filter.
pub open spec fn is_match(st: &State, t: TableView, id: Seq<char>, filter: Option<RecordView>, rec: RecordView) -> bool {
    st.row(t.name, id, u64::MAX) == Ok::<Option<RecordView>, ErrorView>(Some(rec)) && meets(rec, id, filter)
}

pub open spec fn matches_now(st: &State, t: TableView, id: Seq<char>, filter: Option<RecordView>) -> bool {
    exists|rec: RecordView| #[trigger] is_match(st, t, id, filter, rec)
}

proof fn lemma_candidate(st: &State, t: TableView, id: Seq<char>, filter: Option<RecordView>)
    requires
        st.table_view(t.name) == Some(t),
    ensures
        match search::candidate_hit(st, t, id, filter) {
            Err(e) => st.row(t.name, id, u64::MAX) == Err::<Option<RecordView>, ErrorView>(e),
            Ok(None) => st.row(t.name, id, u64::MAX) is Ok && !matches_now(st, t, id, filter),
            Ok(Some(h)) => h.id == id && is_match(st, t, id, filter, h.record),
        },
{
    if let Ok(Some(v)) = st.latest(t.name, encode_utf8(id)) {
        if !v.kind.is_tombstone() {
            if let Ok(rec) = segment::record_of(st.images(), st.blobs@, v.kind) {
                let row = crate::state::with_id(t, rec, id);
                assert(st.row(t.name, id, u64::MAX) == Ok::<Option<RecordView>, ErrorView>(Some(row)));
                if let Some(f) = filter {
                    assert forall|name: Seq<u8>| #[trigger] f.contains_key(name) implies search::field_passes(rec, id, name, f[name])
                        == (if name == record::id_key() {
                        f[name] == ValueView::Text(id)
                    } else if row.contains_key(name) {
                        value::value_eq(row[name], f[name])
                    } else {
                        f[name] == ValueView::Null
                    }) by {
                        if name != record::id_key() {
                            assert(row.contains_key(name) == rec.contains_key(name));
                            if rec.contains_key(name) {
                                assert(row[name] == rec[name]);
                            }
                        }
                    }
                    if search::passes(rec, id, f) {
                        assert(meets(row, id, filter));
                    } else {
                        let name = choose|name: Seq<u8>| #[trigger] f.contains_key(name) && !search::field_passes(rec, id, name, f[name]);
                        assert(f.contains_key(name));
                        assert(!meets(row, id, filter));
                    }
                }
            }
        }
    }
}

/// A candidate stands among the hits.
pub open spec fn is_kept(kept: Seq<KeptView>, p: int) -> bool {
    exists|q: int| 0 <= q < kept.len() && (#[trigger] kept[q]).at == p
}

/// The hits of a search are at most `top_k`; each is the record of the candidate
/// at its place, there now and passing the filter; their places strictly increase,
/// so they come in the order of the ranking; and every passing candidate is a hit
/// that stands before the last hit, or at all where there are fewer than `top_k`.
pub proof fn lemma_first_matches_kept(
    st: &State,
    t: TableView,
    ids: Seq<Seq<char>>,
    filter: Option<RecordView>,
    top_k: usize,
    kept: Seq<KeptView>,
)
    requires
        st.table_view(t.name) == Some(t),
        top_k > 0,
        search::candidate_hits(st, t, ids, filter, top_k, ids.len() as int) == Ok::<Seq<KeptView>, ErrorView>(kept),
    ensures
        kept.len() <= top_k,
        forall|q: int| 0 <= q < kept.len() ==> {
            let k = #[trigger] kept[q];
            &&& 0 <= k.at < ids.len()
            &&& k.hit.id == ids[k.at]
            &&& is_match(st, t, ids[k.at], filter, k.hit.record)
        },
        forall|q: int, r: int| 0 <= q < r < kept.len() ==> (#[trigger] kept[q]).at < (#[trigger] kept[r]).at,
        forall|p: int|
            0 <= p < ids.len() && (kept.len() < top_k || p < kept.last().at) && #[trigger] matches_now(st, t, ids[p], filter)
                ==> is_kept(kept, p),
{
    lemma_kept_so_far(st, t, ids, filter, top_k, ids.len() as int);
}

proof fn lemma_kept_so_far(st: &State, t: TableView, ids: Seq<Seq<char>>, filter: Option<RecordView>, top_k: usize, n: int)
    requires
        st.table_view(t.name) == Some(t),
        top_k > 0,
        0 <= n <= ids.len(),
        search::candidate_hits(st, t, ids, filter, top_k, n) is Ok,
    ensures
        ({
            let kept = search::candidate_hits(st, t, ids, filter, top_k, n)->Ok_0;
            &&& kept.len() <= top_k
            &&& forall|q: int| 0 <= q < kept.len() ==> {
                let k = #[trigger] kept[q];
                &&& 0 <= k.at < n
                &&& k.hit.id == ids[k.at]
                &&& is_match(st, t, ids[k.at], filter, k.hit.record)
            }
            &&& forall|q: int, r: int| 0 <= q < r < kept.len() ==> (#[trigger] kept[q]).at < (#[trigger] kept[r]).at
            &&& forall|p: int|
                0 <= p < n && (kept.len() < top_k || p < kept.last().at) && #[trigger] matches_now(st, t, ids[p], filter) ==> is_kept(
                    kept,
                    p,
                )
        }),
    decreases n,
{
    if n > 0 {
        lemma_kept_so_far(st, t, ids, filter, top_k, n - 1);
        lemma_candidate(st, t, ids[n - 1], filter);
        let before = search::candidate_hits(st, t, ids, filter, top_k, n - 1)->Ok_0;
        let kept = search::candidate_hits(st, t, ids, filter, top_k, n)->Ok_0;
        assert forall|p: int|
            0 <= p < n && (kept.len() < top_k || p < kept.last().at) && #[trigger] matches_now(st, t, ids[p], filter) implies is_kept(
            kept,
            p,
        ) by {
            if before.len() < top_k {
                if p < n - 1 {
                    assert(is_kept(before, p));
                    let q = choose|q: int| 0 <= q < before.len() && (#[trigger] before[q]).at == p;
                    assert(kept[q].at == p);
                } else {
                    assert(kept[kept.len() - 1].at == p);
                }
            } else {
                assert(kept == before);
                assert(before.last() == before[before.len() - 1]);
                assert(before[before.len() - 1].at < n - 1);
                assert(is_kept(before, p));
            }
        }
    }
}

/// A search over candidates fails only where the record of one of them cannot be
/// read, and with that error.
pub proof fn lemma_candidates_fault(st: &State, t: TableView, ids: Seq<Seq<char>>, filter: Option<RecordView>, top_k: usize, n: int) -> (p: int)
    requires
        st.table_view(t.name) == Some(t),
        0 <= n <= ids.len(),
        search::candidate_hits(st, t, ids, filter, top_k, n) is Err,
    ensures
        0 <= p < n,
        st.row(t.name, ids[p], u64::MAX) == Err::<Option<RecordView>, ErrorView>(
            search::candidate_hits(st, t, ids, filter, top_k, n)->Err_0,
        ),
    decreases n,
{
    if search::candidate_hits(st, t, ids, filter, top_k, n - 1) is Err {
        lemma_candidates_fault(st, t, ids, filter, top_k, n - 1)
    } else {
        lemma_candidate(st, t, ids[n - 1], filter);
        n - 1
    }
}

/// A record may be among the hits of a search by words exactly where it is there
/// now and passes the filter.
pub proof fn lemma_accepted_is_match(st: &State, t: TableView, id: Seq<char>, filter: Option<RecordView>)
    requires
        st.table_view(t.name) == Some(t),
        st.row(t.name, id, u64::MAX) is Ok,
    ensures
        search::accepted(st, t, id, filter) == Ok::<bool, ErrorView>(matches_now(st, t, id, filter)),
{
    lemma_candidate(st, t, id, filter);
    if let Ok(Some(v)) = st.latest(t.name, encode_utf8(id)) {
        if !v.kind.is_tombstone() {
            let h = search::candidate_hit(st, t, id, filter);
            if let Ok(Some(hit)) = h {
                assert(is_match(st, t, id, filter, hit.record));
            }
        }
    }
}

// ---- Records that a ranking lists -------------------------------------------

/// The hits of a list of ids are the records of those ids that are there now, in
/// the order of the list: each hit has its place in the list, the places strictly
/// increase, and every id whose record is there has a hit.
pub proof fn lemma_listed_in_order(st: &State, t: TableView, ids: Seq<Seq<char>>, hits: Seq<HitView>, n: int) -> (places: Seq<int>)
    requires
        st.table_view(t.name) == Some(t),
        0 <= n <= ids.len(),
        find::listed_hits(st, t, ids, n) == Ok::<Seq<HitView>, ErrorView>(hits),
    ensures
        places.len() == hits.len(),
        forall|q: int| 0 <= q < hits.len() ==> {
            let p = #[trigger] places[q];
            &&& 0 <= p < n
            &&& hits[q].id == ids[p]
            &&& st.row(t.name, ids[p], u64::MAX) == Ok::<Option<RecordView>, ErrorView>(Some(hits[q].record))
        },
        forall|q: int, r: int| 0 <= q < r < places.len() ==> #[trigger] places[q] < #[trigger] places[r],
        forall|p: int| 0 <= p < n ==> st.row(t.name, #[trigger] ids[p], u64::MAX) is Ok,
        forall|p: int| 0 <= p < n && st.row(t.name, #[trigger] ids[p], u64::MAX)->Ok_0 is Some ==> places.contains(p),
    decreases n,
{
    if n <= 0 {
        Seq::empty()
    } else {
        let before = find::listed_hits(st, t, ids, n - 1)->Ok_0;
        let head = lemma_listed_in_order(st, t, ids, before, n - 1);
        let places = if find::listed_hit(st, t, ids[n - 1])->Ok_0 is Some {
            head.push(n - 1)
        } else {
            head
        };
        assert forall|p: int| 0 <= p < n && st.row(t.name, #[trigger] ids[p], u64::MAX)->Ok_0 is Some implies places.contains(p) by {
            if p < n - 1 {
                assert(head.contains(p));
                assert(places[head.index_of(p)] == p);
            } else {
                assert(places[places.len() - 1] == p);
            }
        }
        places
    }
}

// ---- Two rankings together --------------------------------------------------

/// Fusing a ranking of different records into the standings: a record stands
/// there after it exactly where it stood there or is in the ranking; it has the
/// ranks that it had, and behind them its place in the ranking, where it has one;
/// and it is as whoever named it first gave it.
pub proof fn lemma_fused_standings(m: Map<Seq<u8>, StandingView>, hits: Seq<HitView>, n: int, key: Seq<u8>)
    requires
        0 <= n <= hits.len() <= usize::MAX,
        forall|i: int, j: int| 0 <= i < j < hits.len() ==> encode_utf8((#[trigger] hits[i]).id) != encode_utf8((#[trigger] hits[j]).id),
    ensures
        ({
            let out = search::fused(m, hits, n);
            &&& forall|i: int| 0 <= i < n && encode_utf8((#[trigger] hits[i]).id) == key ==> out.contains_key(key) && out[key].ranks == (if m.contains_key(
                key,
            ) {
                m[key].ranks.push(i as usize)
            } else {
                seq![i as usize]
            }) && out[key].record == (if m.contains_key(key) {
                m[key].record
            } else {
                hits[i].record
            })
            &&& (forall|i: int| 0 <= i < n ==> encode_utf8((#[trigger] hits[i]).id) != key) ==> (out.contains_key(key) <==> m.contains_key(
                key,
            )) && (m.contains_key(key) ==> out[key] == m[key])
        }),
    decreases n,
{
    if n > 0 {
        lemma_fused_standings(m, hits, n - 1, key);
        let last = encode_utf8(hits[n - 1].id);
        if last == key {
            assert forall|i: int| 0 <= i < n - 1 implies encode_utf8((#[trigger] hits[i]).id) != key by {
                assert(encode_utf8(hits[i].id) != encode_utf8(hits[n - 1].id));
            }
        }
    }
}

/// Scores are ordered as the numbers that their bits stand for: negative below
/// positive, positive by rising bits and negative by falling bits.
pub proof fn lemma_score_order(a: u32, b: u32)
    ensures
        a < b < 0x8000_0000 ==> search::total_place(a) < search::total_place(b),
        a < 0x8000_0000 <= b ==> search::total_place(b) < search::total_place(a),
        0x8000_0000 <= a < b ==> search::total_place(b) < search::total_place(a),
{
}

/// Of two positions with one score the earlier comes first.
pub proof fn lemma_ties_keep_order(scores: Seq<u32>, n: int)
    requires
        0 <= n <= scores.len() <= usize::MAX,
    ensures
        forall|i: int, j: int|
            0 <= i < j < search::best_first(scores, n).len() ==> {
                let a = #[trigger] search::best_first(scores, n)[i];
                let b = #[trigger] search::best_first(scores, n)[j];
                search::total_place(scores[a as int]) > search::total_place(scores[b as int]) || (search::total_place(scores[a as int])
                    == search::total_place(scores[b as int]) && a < b)
            },
    decreases n,
{
    if n > 0 {
        lemma_ties_keep_order(scores, n - 1);
        search::lemma_best_first(scores, n - 1);
        let s = search::best_first(scores, n - 1);
        assert forall|k: int| 0 <= k < s.len() implies (#[trigger] s[k]) < n - 1 by {
            assert(s.contains(s[k]));
        }
        lemma_placed_apart(s, scores, (n - 1) as usize);
    }
}

spec fn above(scores: Seq<u32>, a: usize, b: usize) -> bool {
    search::total_place(scores[a as int]) > search::total_place(scores[b as int]) || (search::total_place(scores[a as int])
        == search::total_place(scores[b as int]) && a < b)
}

proof fn lemma_placed_apart(s: Seq<usize>, scores: Seq<u32>, n: usize)
    requires
        forall|i: int, j: int| 0 <= i < j < s.len() ==> above(scores, #[trigger] s[i], #[trigger] s[j]),
        forall|k: int| 0 <= k < s.len() ==> (#[trigger] s[k]) < n,
    ensures
        search::score_placed(s, scores, n).len() == s.len() + 1,
        forall|k: int| 0 <= k <= s.len() ==> (#[trigger] search::score_placed(s, scores, n)[k]) == n || s.contains(
            search::score_placed(s, scores, n)[k],
        ),
        forall|i: int, j: int|
            0 <= i < j < search::score_placed(s, scores, n).len() ==> above(
                scores,
                #[trigger] search::score_placed(s, scores, n)[i],
                #[trigger] search::score_placed(s, scores, n)[j],
            ),
    decreases s.len(),
{
    let out = search::score_placed(s, scores, n);
    if s.len() > 0 {
        if search::total_place(scores[n as int]) > search::total_place(scores[s.last() as int]) {
            let head = s.drop_last();
            assert forall|i: int, j: int| 0 <= i < j < head.len() implies above(scores, #[trigger] head[i], #[trigger] head[j]) by {
                assert(above(scores, s[i], s[j]));
            }
            lemma_placed_apart(head, scores, n);
            let mid = search::score_placed(head, scores, n);
            assert forall|k: int| 0 <= k <= s.len() implies (#[trigger] out[k]) == n || s.contains(out[k]) by {
                if k < mid.len() {
                    assert(out[k] == mid[k]);
                    if mid[k] != n {
                        let x = head.index_of(mid[k]);
                        assert(s[x] == mid[k]);
                    }
                } else {
                    assert(out[k] == s[s.len() - 1]);
                }
            }
            assert forall|i: int, j: int| 0 <= i < j < out.len() implies above(scores, #[trigger] out[i], #[trigger] out[j]) by {
                if j < mid.len() {
                    assert(out[i] == mid[i] && out[j] == mid[j]);
                } else {
                    assert(out[i] == mid[i]);
                    if mid[i] != n {
                        let x = head.index_of(mid[i]);
                        assert(s[x] == mid[i]);
                        assert(above(scores, s[x], s[s.len() - 1]));
                    }
                }
            }
        } else {
            assert forall|k: int| 0 <= k <= s.len() implies (#[trigger] out[k]) == n || s.contains(out[k]) by {
                if k < s.len() {
                    assert(out[k] == s[k]);
                }
            }
            assert forall|i: int, j: int| 0 <= i < j < out.len() implies above(scores, #[trigger] out[i], #[trigger] out[j]) by {
                if j < s.len() {
                    assert(out[i] == s[i] && out[j] == s[j]);
                } else {
                    assert(out[i] == s[i]);
                    if i < s.len() - 1 {
                        assert(above(scores, s[i], s[s.len() - 1]));
                    }
                    assert(s[i] < n);
                }
            }
        }
    }
}

// ---- How a search by a vector is run ----------------------------------------

/// A search by a vector never has more in hand than the query's memory has room
/// for nor than the index holds, begins with enough candidates for `top_k` hits
/// where there are so many, and is as wide as the caller asks where that fits.
pub proof fn lemma_vector_search_fits(top_k: usize, ef_search: Option<usize>, capacity: int, total: usize, s: VectorSearch)
    requires
        search::vector_start(top_k, ef_search, capacity, total, s),
        0 < top_k <= capacity,
        0 < total,
    ensures
        s.top_k == top_k,
        0 < s.fetch <= s.limit,
        s.limit <= total && s.limit <= capacity && (s.limit == total || s.limit == capacity),
        s.ef <= capacity,
        s.limit >= top_k ==> s.fetch >= top_k,
        ef_search is Some && ef_search->0 <= capacity ==> s.ef == ef_search->0,
        ef_search is None && 64 <= capacity ==> s.ef >= 64,
        ef_search is None ==> s.ef >= top_k,
{
}

/// A filter names columns of the table and the primary key only.
pub open spec fn names_columns(t: TableView, filter: Option<RecordView>) -> bool {
    filter matches Some(f) ==> forall|name: Seq<u8>|
        #[trigger] f.contains_key(name) ==> name == record::id_key() || record::is_column(t.columns, name)
}

proof fn lemma_filter_known(t: TableView, filter: Option<RecordView>)
    ensures
        search::filter_known(t, filter) <==> names_columns(t, filter),
{
    if let Some(f) = filter {
        let rest = f.remove(record::id_key());
        if search::filter_known(t, filter) {
            assert forall|name: Seq<u8>| #[trigger] f.contains_key(name) implies name == record::id_key() || record::is_column(
                t.columns,
                name,
            ) by {
                if name != record::id_key() {
                    assert(rest.contains_key(name));
                }
            }
        }
        if names_columns(t, filter) {
            assert forall|name: Seq<u8>| #[trigger] rest.contains_key(name) implies record::is_column(t.columns, name) by {
                assert(f.contains_key(name));
            }
        }
    }
}

/// A search by words is run exactly where hits are asked for, no more of them than
/// the query's memory has room for, of a table that is there and has a text index
/// on the column, with a filter over its columns; asked for none, it is not run.
pub proof fn lemma_text_search_runs(
    st: &State,
    working: usize,
    table: Seq<char>,
    column: Seq<char>,
    query: Seq<char>,
    top_k: usize,
    filter: Option<RecordView>,
    indexed: bool,
    r: Result<bool, ErrorView>,
)
    requires
        search::text_plan(st, working, table, column, query, top_k, filter, indexed, r),
    ensures
        r == Ok::<bool, ErrorView>(true) <==> {
            &&& top_k > 0
            &&& top_k == 1 || top_k * 64 <= working
            &&& encode_utf8(query).len() <= working
            &&& st.table_view(table) is Some
            &&& names_columns(st.table_view(table)->0, filter)
            &&& indexed
        },
        r == Ok::<bool, ErrorView>(false) <==> top_k == 0,
{
    if let Some(t) = st.table_view(table) {
        lemma_filter_known(t, filter);
    }
}

/// A search by a vector is run exactly where hits are asked for, no more of them
/// than the query's memory has room for, over a column of vectors with an index
/// that holds some, by a vector of the column's dimension, with a filter over the
/// columns of the table.
pub proof fn lemma_vector_search_runs(
    st: &State,
    working: usize,
    table: Seq<char>,
    column: Seq<char>,
    dim: usize,
    top_k: usize,
    ef_search: Option<usize>,
    filter: Option<RecordView>,
    index: Option<VectorCount>,
    r: Result<Option<VectorSearch>, ErrorView>,
)
    requires
        search::vector_plan(st, working, table, column, dim, top_k, ef_search, filter, index, r),
    ensures
        (r is Ok && r->Ok_0 is Some) <==> {
            &&& top_k > 0
            &&& top_k == 1 || top_k * 128 <= working
            &&& st.table_view(table) is Some
            &&& schema::column_of(st.table_view(table)->0.columns, column) is Some
            &&& schema::column_of(st.table_view(table)->0.columns, column)->0.ty == ColumnType::Vector
            &&& schema::column_of(st.table_view(table)->0.columns, column)->0.dim matches Some(d) ==> d == dim
            &&& names_columns(st.table_view(table)->0, filter)
            &&& index is Some && index->0.live > 0
        },
{
    if let Some(t) = st.table_view(table) {
        lemma_filter_known(t, filter);
    }
}

/// A combined search asks each ranking for at least as many hits as it shall give,
/// and for no more than the query's memory has room for; it is refused where there
/// is nothing to look for, or no room for the hits.
pub proof fn lemma_hybrid_search_runs(any: bool, top_k: usize, working: usize)
    ensures
        search::hybrid_plan(any, top_k, working) is Ok <==> any && (top_k <= 1 || top_k * 128 <= working),
        search::hybrid_plan(any, top_k, working) == Ok::<Option<int>, ErrorView>(None) <==> any && top_k == 0,
        search::hybrid_plan(any, top_k, working) matches Ok(Some(n)) ==> top_k <= n && (n == 1 || n * 128 <= working),
{
}

} // verus!
