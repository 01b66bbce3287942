//! What lookups by a value give: the records that have it, as reads by their ids
//! give them, in the order of the ids.

use crate::bytes;
use crate::commit_laws;
use crate::disk::{self, Disk};
use crate::error::ErrorView;
use crate::find::{self, HitView};
use crate::find_laws;
use crate::index_laws;
use crate::marks;
use crate::reads;
use crate::record::RecordView;
use crate::schema::TableView;
use crate::segment;
use crate::staged;
use crate::state::{self, State};
use crate::stream_laws::{self, payloads_plain};
use crate::value::{self, ValueView};
use crate::visit::{self, GroupView};
use vstd::prelude::*;
use vstd::utf8::*;

verus! {

/// A record has the value in the column now, and its id stands after the cursor.
pub open spec fn holds(st: &State, t: TableView, column: Seq<char>, v: ValueView, after: Option<Seq<char>>, id: Seq<char>) -> bool {
    &&& st.row(t.name, id, u64::MAX) matches Ok(Some(rec)) && rec.contains_key(encode_utf8(column)) && value::value_eq(
        rec[encode_utf8(column)],
        v,
    )
    &&& after matches Some(a) ==> bytes::lex_lt(encode_utf8(a), encode_utf8(id))
}

pub open spec fn has_hit(hits: Seq<HitView>, id: Seq<char>) -> bool {
    exists|i: int| 0 <= i < hits.len() && (#[trigger] hits[i]).id == id
}

pub open spec fn rising(hits: Seq<HitView>) -> bool {
    forall|i: int, j: int|
        0 <= i < j < hits.len() ==> bytes::lex_lt(encode_utf8((#[trigger] hits[i]).id), encode_utf8((#[trigger] hits[j]).id))
}

/// The hit is the record that a read by its id gives.
pub open spec fn is_row(st: &State, t: TableView, h: HitView) -> bool {
    st.row(t.name, h.id, u64::MAX) == Ok::<Option<RecordView>, ErrorView>(Some(h.record))
}

/// A record of a walk is the hit.
pub open spec fn comes_from(st: &State, t: TableView, groups: Seq<GroupView>, column: Seq<char>, v: ValueView, g: int, h: HitView) -> bool {
    find::walked_hit(st, t, groups[g], column, v) == Ok::<Option<HitView>, ErrorView>(Some(h))
}

pub open spec fn is_from(st: &State, t: TableView, groups: Seq<GroupView>, column: Seq<char>, v: ValueView, n: int, h: HitView) -> bool {
    exists|g: int| 0 <= g < n && #[trigger] comes_from(st, t, groups, column, v, g, h)
}

/// The hit is among the hits, or they are as many as were asked for and it stands
/// after them.
pub open spec fn has_or_later(hits: Seq<HitView>, limit: Option<usize>, h: HitView) -> bool {
    hits.contains(h) || (find::is_full(hits.len(), limit) && (hits.len() > 0 ==> bytes::lex_lt(
        encode_utf8(hits.last().id),
        encode_utf8(h.id),
    )))
}

#[verifier::spinoff_prover]
#[verifier::rlimit(40)]
proof fn lemma_walked(
    st: &State,
    t: TableView,
    groups: Seq<GroupView>,
    column: Seq<char>,
    v: ValueView,
    limit: Option<usize>,
    n: int,
)
    requires
        0 <= n <= groups.len(),
        forall|i: int| 0 <= i < groups.len() ==> valid_utf8((#[trigger] groups[i]).id),
        forall|i: int, j: int| 0 <= i < j < groups.len() ==> bytes::lex_lt((#[trigger] groups[i]).id, (#[trigger] groups[j]).id),
        find::walked_hits(st, t, groups, column, v, limit, n) is Ok,
    ensures
        ({
            let hits = find::walked_hits(st, t, groups, column, v, limit, n)->Ok_0;
            &&& limit matches Some(l) ==> hits.len() <= l
            &&& forall|i: int| 0 <= i < hits.len() ==> is_from(st, t, groups, column, v, n, #[trigger] hits[i])
            &&& rising(hits)
            &&& forall|g: int, h: HitView| 0 <= g < n && #[trigger] comes_from(st, t, groups, column, v, g, h) ==> has_or_later(hits, limit, h)
        }),
    decreases n,
{
    if n > 0 {
        lemma_walked(st, t, groups, column, v, limit, n - 1);
        let done = find::walked_hits(st, t, groups, column, v, limit, n - 1)->Ok_0;
        let hits = find::walked_hits(st, t, groups, column, v, limit, n)->Ok_0;
        decode_utf8_encode_utf8(groups[n - 1].id);
        assert forall|i: int| 0 <= i < done.len() implies is_from(st, t, groups, column, v, n, #[trigger] done[i]) && bytes::lex_lt(
            encode_utf8(done[i].id),
            groups[n - 1].id,
        ) by {
            let g = choose|g: int| 0 <= g < n - 1 && #[trigger] comes_from(st, t, groups, column, v, g, done[i]);
            decode_utf8_encode_utf8(groups[g].id);
            assert(comes_from(st, t, groups, column, v, g, done[i]));
            assert(bytes::lex_lt(groups[g].id, groups[n - 1].id));
        }
        if find::is_full(done.len(), limit) {
            assert(hits == done);
            assert forall|g: int, h: HitView| 0 <= g < n && #[trigger] comes_from(st, t, groups, column, v, g, h) implies has_or_later(
                hits,
                limit,
                h,
            ) by {
                if g == n - 1 && hits.len() > 0 {
                    assert(bytes::lex_lt(encode_utf8(done[done.len() - 1].id), groups[n - 1].id));
                }
            }
        } else {
            match find::walked_hit(st, t, groups[n - 1], column, v)->Ok_0 {
                None => {
                    assert(hits == done);
                },
                Some(h) => {
                    assert(hits == done.push(h));
                    assert(comes_from(st, t, groups, column, v, n - 1, h));
                    assert forall|i: int| 0 <= i < hits.len() implies is_from(st, t, groups, column, v, n, #[trigger] hits[i]) by {
                        if i < done.len() {
                            assert(hits[i] == done[i]);
                        }
                    }
                    assert forall|i: int, j: int| 0 <= i < j < hits.len() implies bytes::lex_lt(
                        encode_utf8((#[trigger] hits[i]).id),
                        encode_utf8((#[trigger] hits[j]).id),
                    ) by {
                        assert(hits[i] == done[i]);
                        if j < done.len() {
                            assert(hits[j] == done[j]);
                        }
                    }
                    assert forall|g: int, x: HitView| 0 <= g < n && #[trigger] comes_from(st, t, groups, column, v, g, x) implies has_or_later(
                        hits,
                        limit,
                        x,
                    ) by {
                        if g == n - 1 {
                            assert(hits[done.len() as int] == x);
                        } else {
                            assert(done.contains(x));
                            let i = done.index_of(x);
                            assert(hits[i] == x);
                        }
                    }
                },
            }
        }
    }
}

/// What a lookup gives: at most as many hits as are asked for, each of them the
/// record that a read by its id gives, with the value and after the cursor; their
/// ids rise; and a record with the value is left out only behind as many hits as
/// are asked for.
pub open spec fn is_answer(
    st: &State,
    t: TableView,
    column: Seq<char>,
    v: ValueView,
    after: Option<Seq<char>>,
    limit: Option<usize>,
    hits: Seq<HitView>,
    id: Seq<char>,
) -> bool {
    &&& limit matches Some(l) ==> hits.len() <= l
    &&& forall|i: int| 0 <= i < hits.len() ==> is_row(st, t, #[trigger] hits[i]) && holds(st, t, column, v, after, hits[i].id)
    &&& rising(hits)
    &&& holds(st, t, column, v, after, id) && !has_hit(hits, id) ==> limit == Some(hits.len() as usize) && (hits.len() > 0
        ==> bytes::lex_lt(encode_utf8(hits.last().id), encode_utf8(id)))
}

proof fn lemma_now_holds(st: &State, t: TableView, column: Seq<char>, v: ValueView, id: Seq<char>)
    requires
        st.table_view(t.name) == Some(t),
        index_laws::stored_column(t, column),
    ensures
        find_laws::has_now(st, t, encode_utf8(id), column, v) <==> holds(st, t, column, v, None, id),
{
}

/// A lookup that walks the records gives the records that have the value, as many
/// as are asked for, from behind the cursor on.
#[verifier::spinoff_prover]
#[verifier::rlimit(40)]
pub proof fn lemma_walk_gives_records(
    st: &State,
    t: TableView,
    column: Seq<char>,
    v: ValueView,
    after: Option<Seq<char>>,
    limit: Option<usize>,
    hits: Seq<HitView>,
    id: Seq<char>,
)
    requires
        st.versions_ok(),
        st.table_view(t.name) == Some(t),
        index_laws::stored_column(t, column),
        find::walk_answer(st, t, column, v, after, limit, Ok(hits)),
    ensures
        is_answer(st, t, column, v, after, limit, hits, id),
{
    let (groups, fault) = choose|groups: Seq<GroupView>, fault: Option<ErrorView>|
        #[trigger] find::is_walk(st, t, after, groups, fault) && Ok::<Seq<HitView>, ErrorView>(hits) == (match find::walked_hits(
            st,
            t,
            groups,
            column,
            v,
            limit,
            groups.len() as int,
        ) {
            Err(e) => Err(e),
            Ok(hits) => match fault {
                Some(e) => if find::is_full(hits.len(), limit) {
                    Ok(hits)
                } else {
                    Err(e)
                },
                None => Ok(hits),
            },
        });
    let table = encode_utf8(t.name);
    let from = find::after_bytes(after);
    let cut: Option<usize> = match fault {
        None => None,
        Some(_) => Some(groups.len() as usize),
    };
    assert(st.index.is_listing(table, from, cut, groups));
    let n = groups.len() as int;
    lemma_walked(st, t, groups, column, v, limit, n);
    assert forall|i: int| 0 <= i < hits.len() implies is_row(st, t, #[trigger] hits[i]) && holds(st, t, column, v, after, hits[i].id) by {
        let g = choose|g: int| 0 <= g < n && #[trigger] comes_from(st, t, groups, column, v, g, hits[i]);
        lemma_walked_row(st, t, groups[g], column, v, after, hits[i]);
    }
    if holds(st, t, column, v, after, id) && !has_hit(hits, id) {
        lemma_walk_covers(st, t, groups, cut, column, v, after, limit, hits, id);
        assert(find::is_full(hits.len(), limit));
    }
}

#[verifier::spinoff_prover]
proof fn lemma_walk_covers(
    st: &State,
    t: TableView,
    groups: Seq<GroupView>,
    cut: Option<usize>,
    column: Seq<char>,
    v: ValueView,
    after: Option<Seq<char>>,
    limit: Option<usize>,
    hits: Seq<HitView>,
    id: Seq<char>,
)
    requires
        st.versions_ok(),
        st.table_view(t.name) == Some(t),
        index_laws::stored_column(t, column),
        st.index.is_listing(encode_utf8(t.name), find::after_bytes(after), cut, groups),
        cut is Some ==> find::is_full(hits.len(), limit),
        forall|i: int| 0 <= i < hits.len() ==> is_from(st, t, groups, column, v, groups.len() as int, #[trigger] hits[i]),
        forall|g: int, h: HitView|
            0 <= g < groups.len() && #[trigger] comes_from(st, t, groups, column, v, g, h) ==> has_or_later(hits, limit, h),
        holds(st, t, column, v, after, id),
        !has_hit(hits, id),
    ensures
        find::is_full(hits.len(), limit),
        hits.len() > 0 ==> bytes::lex_lt(encode_utf8(hits.last().id), encode_utf8(id)),
{
    let table = encode_utf8(t.name);
    let n = groups.len() as int;
    let key = encode_utf8(id);
    lemma_now_holds(st, t, column, v, id);
    assert(st.shows(t.name, key, u64::MAX));
    reads::lemma_versions_held(st, t.name, key, u64::MAX);
    if visit::lists_id(groups, key) {
        let g = choose|g: int| 0 <= g < groups.len() && (#[trigger] groups[g]).id == key;
        assert(st.index.is_record(table, None, groups[g]));
        find_laws::lemma_group_now(st, t, groups[g]);
        encode_utf8_decode_utf8(id);
        let h = HitView { id, record: st.row(t.name, id, u64::MAX)->Ok_0->0 };
        assert(comes_from(st, t, groups, column, v, g, h));
        if hits.contains(h) {
            let i = hits.index_of(h);
            assert(hits[i].id == id);
        }
    } else if hits.len() > 0 {
        let last = hits[hits.len() - 1];
        let g = choose|g: int| 0 <= g < n && #[trigger] comes_from(st, t, groups, column, v, g, last);
        decode_utf8_encode_utf8(groups[g].id);
        if g < n - 1 {
            assert(bytes::lex_lt(groups[g].id, groups[n - 1].id));
            bytes::lemma_lex_transitive(groups[g].id, groups[n - 1].id, key);
        }
    }
}

proof fn lemma_walked_row(st: &State, t: TableView, g: GroupView, column: Seq<char>, v: ValueView, after: Option<Seq<char>>, h: HitView)
    requires
        st.versions_ok(),
        st.table_view(t.name) == Some(t),
        index_laws::stored_column(t, column),
        st.index.is_record(encode_utf8(t.name), find::after_bytes(after), g),
        find::walked_hit(st, t, g, column, v) == Ok::<Option<HitView>, ErrorView>(Some(h)),
    ensures
        is_row(st, t, h),
        holds(st, t, column, v, after, h.id),
{
    assert(st.index.is_record(encode_utf8(t.name), None, g));
    find_laws::lemma_group_now(st, t, g);
    decode_utf8_encode_utf8(g.id);
    lemma_now_holds(st, t, column, v, h.id);
}

// ---- Through an index -------------------------------------------------------

/// An index that is in step lists a record under a value exactly where the record
/// has it.
proof fn lemma_listed_now(st: &State, t: TableView, slot: int, v: ValueView, id: Seq<char>)
    requires
        st.table_view(t.name) == Some(t),
        0 <= slot < st.secondary@.len(),
        st.secondary@[slot].table@ == t.name,
        commit_laws::index_agrees(st, st.secondary@[slot]),
        find::has_key(v),
        find_laws::is_exact(v),
    ensures
        st.secondary@[slot].index.member(value::encoded(v), encode_utf8(id)) <==> find_laws::has_now(
            st,
            t,
            encode_utf8(id),
            st.secondary@[slot].column@,
            v,
        ),
{
    let column = st.secondary@[slot].column@;
    assert(st.secondary@[slot].index.member(value::encoded(v), encode_utf8(id)) <==> commit_laws::current_key(st, t.name, column, id)
        == Some(value::encoded(v)));
    match st.latest(t.name, encode_utf8(id)) {
        Ok(Some(u)) => match segment::record_of(st.images(), st.blobs@, u.kind) {
            Ok(rec) => {
                let name = encode_utf8(column);
                find_laws::lemma_exact(rec[name], v);
                if rec.contains_key(name) && staged::indexable(rec[name]) && value::encoded(rec[name]) == value::encoded(v) {
                    value::lemma_encoded_injective(rec[name], v);
                }
            },
            Err(_) => {},
        },
        _ => {},
    }
}

proof fn lemma_listed(st: &State, t: TableView, ids: Seq<Seq<char>>, n: int)
    requires
        0 <= n <= ids.len(),
        st.table_view(t.name) == Some(t),
        find::listed_hits(st, t, ids, n) is Ok,
        forall|i: int| 0 <= i < n ==> st.shows(t.name, encode_utf8(#[trigger] ids[i]), u64::MAX),
    ensures
        ({
            let hits = find::listed_hits(st, t, ids, n)->Ok_0;
            &&& hits.len() == n
            &&& forall|i: int| 0 <= i < n ==> (#[trigger] hits[i]).id == ids[i] && is_row(st, t, hits[i])
        }),
    decreases n,
{
    if n > 0 {
        lemma_listed(st, t, ids, n - 1);
        assert(st.shows(t.name, encode_utf8(ids[n - 1]), u64::MAX));
    }
}

/// A lookup through an index that is in step gives the records that have the
/// value, as many as are asked for, from behind the cursor on.
pub proof fn lemma_index_gives_records(
    st: &State,
    t: TableView,
    slot: int,
    v: ValueView,
    after: Option<Seq<char>>,
    limit: Option<usize>,
    hits: Seq<HitView>,
    id: Seq<char>,
)
    requires
        st.table_view(t.name) == Some(t),
        0 <= slot < st.secondary@.len(),
        st.secondary@[slot].table@ == t.name,
        index_laws::stored_column(t, st.secondary@[slot].column@),
        commit_laws::index_agrees(st, st.secondary@[slot]),
        find::has_key(v),
        find_laws::is_exact(v),
        find::index_answer(st, t, slot, v, after, limit, Ok(hits)),
    ensures
        is_answer(st, t, st.secondary@[slot].column@, v, after, limit, hits, id),
{
    let column = st.secondary@[slot].column@;
    let index = st.secondary@[slot].index;
    let from = find::after_bytes(after);
    let ids = choose|ids: Seq<Seq<char>>|
        #[trigger] index.is_id_list(value::encoded(v), from, limit, find::ids_in_bytes(ids)) && Ok::<Seq<HitView>, ErrorView>(hits)
            == find::listed_hits(st, t, ids, ids.len() as int);
    let list = find::ids_in_bytes(ids);
    assert forall|i: int| 0 <= i < ids.len() implies st.shows(t.name, encode_utf8(#[trigger] ids[i]), u64::MAX) && find_laws::has_now(
        st,
        t,
        encode_utf8(ids[i]),
        column,
        v,
    ) && visit::id_wanted(from, encode_utf8(ids[i])) by {
        assert(index.member(value::encoded(v), list[i]));
        lemma_listed_now(st, t, slot, v, ids[i]);
    }
    lemma_listed(st, t, ids, ids.len() as int);
    assert forall|i: int| 0 <= i < hits.len() implies is_row(st, t, #[trigger] hits[i]) && holds(st, t, column, v, after, hits[i].id) by {
        lemma_now_holds(st, t, column, v, ids[i]);
    }
    assert forall|i: int, j: int| 0 <= i < j < hits.len() implies bytes::lex_lt(
        encode_utf8((#[trigger] hits[i]).id),
        encode_utf8((#[trigger] hits[j]).id),
    ) by {
        assert(bytes::lex_lt(list[i], list[j]));
    }
    if holds(st, t, column, v, after, id) && !has_hit(hits, id) {
        lemma_now_holds(st, t, column, v, id);
        lemma_listed_now(st, t, slot, v, id);
        let key = encode_utf8(id);
        assert(index.member(value::encoded(v), key) && visit::id_wanted(from, key));
        if list.contains(key) {
            let i = list.index_of(key);
            assert(encode_utf8(ids[i]) == key);
            bytes::lemma_utf8_injective(ids[i], id);
            assert(hits[i].id == id);
        }
        if hits.len() > 0 {
            assert(list[hits.len() - 1] == encode_utf8(hits[hits.len() - 1].id));
        }
    }
}

// ---- Whichever way ----------------------------------------------------------

/// No id stands in two places.
pub open spec fn ids_once(hits: Seq<HitView>) -> bool {
    forall|i: int, j: int| 0 <= i < j < hits.len() ==> (#[trigger] hits[i]).id != (#[trigger] hits[j]).id
}

proof fn lemma_rising_once(hits: Seq<HitView>)
    requires
        rising(hits),
    ensures
        ids_once(hits),
{
    assert forall|i: int, j: int| 0 <= i < j < hits.len() implies (#[trigger] hits[i]).id != (#[trigger] hits[j]).id by {
        bytes::lemma_lex_irreflexive(encode_utf8(hits[i].id));
    }
}

/// Hits with distinct ids that are put in order rise, and are the same hits.
proof fn lemma_ordered_rises(hits: Seq<HitView>)
    requires
        ids_once(hits),
    ensures
        rising(find::ordered(hits)),
        forall|i: int| 0 <= i < find::ordered(hits).len() ==> hits.contains(#[trigger] find::ordered(hits)[i]),
{
    let out = find::ordered(hits);
    find::lemma_ordered(hits);
    hits.to_multiset_ensures();
    out.to_multiset_ensures();
    assert forall|h: HitView| out.contains(h) <==> hits.contains(h) by {
        assert(out.to_multiset().count(h) == hits.to_multiset().count(h));
    }
    assert(hits.no_duplicates()) by {
        assert forall|i: int, j: int| 0 <= i < hits.len() && 0 <= j < hits.len() && i != j implies hits[i] != hits[j] by {
            assert(hits[i].id != hits[j].id);
        }
    }
    hits.lemma_multiset_has_no_duplicates();
    out.lemma_multiset_has_no_duplicates_conv();
    assert forall|i: int| 0 <= i < out.len() implies hits.contains(#[trigger] out[i]) by {
        assert(out.contains(out[i]));
    }
    assert forall|i: int, j: int| 0 <= i < j < out.len() implies bytes::lex_lt(
        encode_utf8((#[trigger] out[i]).id),
        encode_utf8((#[trigger] out[j]).id),
    ) by {
        bytes::lemma_lex_trichotomy(encode_utf8(out[i].id), encode_utf8(out[j].id));
        if encode_utf8(out[i].id) == encode_utf8(out[j].id) {
            bytes::lemma_utf8_injective(out[i].id, out[j].id);
            assert(out.contains(out[i]) && out.contains(out[j]));
            let a = hits.index_of(out[i]);
            let b = hits.index_of(out[j]);
            assert(hits[a].id == hits[b].id);
            assert(a == b);
            assert(out[i] == out[j]);
        }
    }
}

/// A lookup by a value gives every record that has it now and no other, each once
/// and as a read by its id gives it, in the order of the ids; whichever way the
/// lookup goes.
#[verifier::spinoff_prover]
#[verifier::rlimit(40)]
pub proof fn lemma_find_eq_gives_records(
    st: &State,
    d: Disk,
    read_only: bool,
    t: TableView,
    column: Seq<char>,
    v: ValueView,
    hits: Seq<HitView>,
    id: Seq<char>,
)
    requires
        st.inv(),
        read_only ==> st.index.sound(),
        disk::keeps(d, st),
        st.marked(),
        payloads_plain(st),
        st.table_view(t.name) == Some(t),
        index_laws::stored_column(t, column),
        find::has_key(v),
        state::slot_of(st.secondary@, t.name, column) matches Some(slot) ==> commit_laws::index_agrees(st, st.secondary@[slot])
            && find_laws::is_exact(v),
        find::eq_answer(st, read_only, t, column, v, Ok(hits)),
    ensures
        forall|i: int| 0 <= i < hits.len() ==> is_row(st, t, #[trigger] hits[i]),
        rising(hits),
        has_hit(hits, id) <==> holds(st, t, column, v, None, id),
{
    let raw = choose|raw: Result<Seq<HitView>, ErrorView>|
        #[trigger] find::raw_answer(st, read_only, t, column, v, raw) && Ok::<Seq<HitView>, ErrorView>(hits) == find::in_order_result(raw);
    let list = raw->Ok_0;
    lemma_now_holds(st, t, column, v, id);
    stream_laws::lemma_find_eq_finds(st, d, read_only, t, column, v, hits, id);
    lemma_raw_rows(st, d, read_only, t, column, v, list);
    lemma_ordered_rows(st, t, list);
}

proof fn lemma_ordered_rows(st: &State, t: TableView, list: Seq<HitView>)
    requires
        stream_laws::are_rows(st, t, list),
    ensures
        forall|i: int| 0 <= i < find::ordered(list).len() ==> is_row(st, t, #[trigger] find::ordered(list)[i]),
        rising(find::ordered(list)),
{
    lemma_ordered_rises(list);
    let hits = find::ordered(list);
    assert forall|i: int| 0 <= i < hits.len() implies is_row(st, t, #[trigger] hits[i]) by {
        assert(list.contains(hits[i]));
        let j = choose|j: int| 0 <= j < list.len() && list[j] == hits[i];
        assert(is_row(st, t, list[j]));
    }
}

#[verifier::spinoff_prover]
proof fn lemma_raw_rows(st: &State, d: Disk, read_only: bool, t: TableView, column: Seq<char>, v: ValueView, list: Seq<HitView>)
    requires
        st.inv(),
        disk::keeps(d, st),
        st.marked(),
        payloads_plain(st),
        st.table_view(t.name) == Some(t),
        index_laws::stored_column(t, column),
        find::has_key(v),
        state::slot_of(st.secondary@, t.name, column) matches Some(slot) ==> commit_laws::index_agrees(st, st.secondary@[slot])
            && find_laws::is_exact(v),
        find::raw_answer(st, read_only, t, column, v, Ok(list)),
    ensures
        stream_laws::are_rows(st, t, list),
{
    state::lemma_slot_of(st.secondary@, t.name, column);
    match state::slot_of(st.secondary@, t.name, column) {
        Some(slot) => {
            lemma_index_gives_records(st, t, slot, v, None, None, list, column);
            lemma_rising_once(list);
        },
        None => {
            if read_only {
                lemma_walk_gives_records(st, t, column, v, None, None, list, column);
                lemma_rising_once(list);
            } else {
                marks::lemma_kept_listed(d, st);
                stream_laws::lemma_stored_sole(d, st);
                stream_laws::lemma_stream_rows(st, t, column, v, list);
            }
        },
    }
}

} // verus!
