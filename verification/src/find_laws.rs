//! What lookups by value find: through an index, and by walking the records.

use crate::bytes;
use crate::commit_laws;
use crate::error::ErrorView;
use crate::find::{self, HitView};
use crate::primary;
use crate::reads;
use crate::schema::TableView;
use crate::segment;
use crate::staged;
use crate::state::State;
use crate::value::{self, ValueView};
use crate::version::{self, VersionView};
use crate::visit::{self, GroupView};
use vstd::prelude::*;
use vstd::utf8::*;

verus! {

/// Whether a record has a value in a column now.
pub open spec fn has_now(st: &State, t: TableView, id: Seq<u8>, column: Seq<char>, v: ValueView) -> bool {
    st.latest(t.name, id) matches Ok(Some(u)) && !u.kind.is_tombstone() && (segment::record_of(st.images(), st.blobs@, u.kind) matches Ok(
        rec,
    ) && find::record_has(rec, column, v))
}

pub open spec fn finds(hits: Seq<HitView>, id: Seq<char>) -> bool {
    exists|i: int| 0 <= i < hits.len() && (#[trigger] hits[i]).id == id
}

/// The last version of a group past an epoch is the one that counts now.
proof fn lemma_last_counts(g: Seq<VersionView>, s: Seq<VersionView>, epoch: u64)
    requires
        primary::is_group(g, s),
        primary::consistent(s),
    ensures
        find::last_past(g, epoch) == crate::state::current(s, u64::MAX, epoch),
{
    reads::lemma_group_current(g, s, g.len() - 1, u64::MAX);
    if g.len() > 0 && g.last().version <= epoch {
        lemma_none_past(g, epoch);
    }
}

/// Where the last of rising versions is not past an epoch, none is.
pub proof fn lemma_none_past(g: Seq<VersionView>, epoch: u64)
    requires
        forall|i: int, j: int| 0 <= i < j < g.len() ==> (#[trigger] g[i]).version < (#[trigger] g[j]).version,
        g.len() > 0 ==> g.last().version <= epoch,
    ensures
        find::last_past(g, epoch) is None,
    decreases g.len(),
{
    if g.len() > 0 {
        let t = g.drop_last();
        assert forall|i: int, j: int| 0 <= i < j < t.len() implies (#[trigger] t[i]).version < (#[trigger] t[j]).version by {
            assert(t[i] == g[i] && t[j] == g[j]);
        }
        if t.len() > 0 {
            assert(g[t.len() - 1].version < g[g.len() - 1].version);
        }
        lemma_none_past(t, epoch);
    }
}

/// A key of the primary index ends in a text.
pub proof fn lemma_id_text(table: Seq<char>, id: Seq<u8>)
    requires
        encode_utf8(table).len() <= u32::MAX,
        version::key_parts(version::key_of(encode_utf8(table), id)) is Ok,
    ensures
        valid_utf8(id),
{
    let t = encode_utf8(table);
    let key = version::key_of(t, id);
    bytes::lemma_radix_small();
    bytes::lemma_be_len(t.len(), 4);
    bytes::lemma_be_round_trip(t.len(), 4);
    assert(key.subrange(0, 4) =~= bytes::be(t.len(), 4));
    assert(key.subrange((4 + t.len()) as int, key.len() as int) =~= id);
}

/// What the first records of a walk give.
proof fn lemma_walked(st: &State, t: TableView, groups: Seq<GroupView>, column: Seq<char>, v: ValueView, n: int, id: Seq<char>)
    requires
        0 <= n <= groups.len(),
        find::walked_hits(st, t, groups, column, v, None, n) is Ok,
        forall|i: int| 0 <= i < groups.len() ==> valid_utf8((#[trigger] groups[i]).id),
    ensures
        finds(find::walked_hits(st, t, groups, column, v, None, n)->Ok_0, id) <==> exists|i: int|
            0 <= i < n && is_walked(st, t, groups, column, v, i, id),
        forall|i: int| 0 <= i < n ==> (#[trigger] find::walked_hit(st, t, groups[i], column, v)) is Ok,
    decreases n,
{
    if n > 0 {
        lemma_walked(st, t, groups, column, v, n - 1, id);
        let before = find::walked_hits(st, t, groups, column, v, None, n - 1)->Ok_0;
        let after = find::walked_hits(st, t, groups, column, v, None, n)->Ok_0;
        assert forall|i: int| 0 <= i < n implies (#[trigger] find::walked_hit(st, t, groups[i], column, v)) is Ok by {
            if i == n - 1 {
                assert(find::walked_hit(st, t, groups[n - 1], column, v) is Ok);
            }
        }
        match find::walked_hit(st, t, groups[n - 1], column, v)->Ok_0 {
            None => {
                assert(after == before);
                if exists|i: int| 0 <= i < n && is_walked(st, t, groups, column, v, i, id) {
                    let i = choose|i: int| 0 <= i < n && is_walked(st, t, groups, column, v, i, id);
                    assert(i != n - 1);
                }
            },
            Some(h) => {
                assert(after == before.push(h));
                decode_utf8_encode_utf8(groups[n - 1].id);
                if finds(after, id) {
                    let i = choose|i: int| 0 <= i < after.len() && (#[trigger] after[i]).id == id;
                    if i < before.len() {
                        assert(before[i] == after[i]);
                    } else {
                        assert(is_walked(st, t, groups, column, v, n - 1, id));
                    }
                }
                if exists|i: int| 0 <= i < n && is_walked(st, t, groups, column, v, i, id) {
                    let i = choose|i: int| 0 <= i < n && is_walked(st, t, groups, column, v, i, id);
                    if i == n - 1 {
                        encode_utf8_decode_utf8(id);
                        assert(after[before.len() as int].id == id);
                    } else {
                        let k = choose|k: int| 0 <= k < before.len() && (#[trigger] before[k]).id == id;
                        assert(after[k].id == id);
                    }
                }
            },
        }
    }
}

pub open spec fn is_walked(st: &State, t: TableView, groups: Seq<GroupView>, column: Seq<char>, v: ValueView, i: int, id: Seq<char>) -> bool {
    groups[i].id == encode_utf8(id) && find::walked_hit(st, t, groups[i], column, v) matches Ok(Some(_))
}

/// A lookup that walks all records finds exactly those that have the value in the
/// column now.
pub proof fn lemma_walk_finds_matches(st: &State, t: TableView, column: Seq<char>, v: ValueView, hits: Seq<HitView>, id: Seq<char>)
    requires
        st.versions_ok(),
        st.index.sound(),
        encode_utf8(t.name).len() <= u32::MAX,
        st.table_view(t.name) == Some(t),
        find::walk_answer(st, t, column, v, None, None, Ok(hits)),
    ensures
        finds(hits, id) <==> has_now(st, t, encode_utf8(id), column, v),
{
    let (groups, fault) = choose|groups: Seq<GroupView>, fault: Option<ErrorView>|
        #[trigger] find::is_walk(st, t, None, groups, fault) && Ok::<Seq<HitView>, ErrorView>(hits) == (match find::walked_hits(
            st,
            t,
            groups,
            column,
            v,
            None,
            groups.len() as int,
        ) {
            Err(e) => Err(e),
            Ok(hits) => match fault {
                Some(e) => if find::is_full(hits.len(), None) {
                    Ok(hits)
                } else {
                    Err(e)
                },
                None => Ok(hits),
            },
        });
    assert(fault is None);
    let table = encode_utf8(t.name);
    assert forall|i: int| 0 <= i < groups.len() implies valid_utf8((#[trigger] groups[i]).id) by {
        assert(st.index.is_record(table, None, groups[i]));
        lemma_id_text(t.name, groups[i].id);
    }
    lemma_walked(st, t, groups, column, v, groups.len() as int, id);
    if exists|i: int| 0 <= i < groups.len() && is_walked(st, t, groups, column, v, i, id) {
        let i = choose|i: int| 0 <= i < groups.len() && is_walked(st, t, groups, column, v, i, id);
        lemma_group_now(st, t, groups[i]);
    }
    if has_now(st, t, encode_utf8(id), column, v) {
        assert(st.shows(t.name, encode_utf8(id), u64::MAX));
        reads::lemma_versions_held(st, t.name, encode_utf8(id), u64::MAX);
        assert(visit::lists_id(groups, encode_utf8(id)));
        let i = choose|i: int| 0 <= i < groups.len() && (#[trigger] groups[i]).id == encode_utf8(id);
        lemma_group_now(st, t, groups[i]);
        assert(is_walked(st, t, groups, column, v, i, id));
    }
}

/// The newest version of a record that is listed is the last one past the epoch
/// of its table.
pub proof fn lemma_group_now(st: &State, t: TableView, g: GroupView)
    requires
        st.versions_ok(),
        st.table_view(t.name) == Some(t),
        st.index.is_record(encode_utf8(t.name), None, g),
    ensures
        st.latest(t.name, g.id) == Ok::<Option<VersionView>, Seq<char>>(find::last_past(g.versions, t.epoch)),
{
    let key = version::key_of(encode_utf8(t.name), g.id);
    let s = st.index.entries(key)->Ok_0;
    lemma_last_counts(g.versions, s, t.epoch);
}

/// A value that equals another exactly where both are the same. The two zeros are
/// equal and differ, and what is not a number differs from itself.
pub open spec fn is_exact(v: ValueView) -> bool {
    match v {
        ValueView::Null => false,
        ValueView::Float64(bits) => !value::is_nan64(bits) && bits % 0x8000_0000_0000_0000 != 0,
        ValueView::Vector(c) => forall|i: int|
            0 <= i < c.len() ==> !value::is_nan32(#[trigger] c[i]) && c[i] % 0x8000_0000 != 0,
        _ => true,
    }
}

pub proof fn lemma_exact(a: ValueView, v: ValueView)
    requires
        is_exact(v),
    ensures
        value::value_eq(a, v) <==> a == v,
{
    match (a, v) {
        (ValueView::Vector(x), ValueView::Vector(y)) => {
            if value::vector_eq(x, y) {
                assert forall|i: int| 0 <= i < x.len() implies x[i] == y[i] by {
                    assert(value::float32_eq(x[i], y[i]));
                    assert(!value::is_nan32(y[i]));
                }
                assert(x =~= y);
            }
            if x == y {
                assert forall|i: int| 0 <= i < x.len() implies value::float32_eq(#[trigger] x[i], y[i]) by {
                    assert(!value::is_nan32(y[i]));
                }
            }
        },
        _ => {},
    }
}

/// An index changes nothing about what a lookup finds: where it agrees with the
/// records, the ids that it lists are those of the records that have the value
/// now. Zeros of floats and what is not a number are left out: the two zeros are
/// equal and have two keys, and what is not a number has a key and equals
/// nothing.
pub proof fn lemma_index_changes_nothing(st: &State, t: TableView, slot: int, v: ValueView, ids: Seq<Seq<char>>, id: Seq<char>)
    requires
        st.table_view(t.name) == Some(t),
        0 <= slot < st.secondary@.len(),
        st.secondary@[slot].table@ == t.name,
        commit_laws::index_agrees(st, st.secondary@[slot]),
        find::has_key(v),
        is_exact(v),
        st.secondary@[slot].index.is_id_list(value::encoded(v), None, None, find::ids_in_bytes(ids)),
    ensures
        ids.contains(id) <==> has_now(st, t, encode_utf8(id), st.secondary@[slot].column@, v),
{
    let column = st.secondary@[slot].column@;
    find::lemma_index_lists_matches(st, slot, v, ids);
    assert(ids.contains(id) <==> commit_laws::current_key(st, t.name, column, id) == Some(value::encoded(v)));
    match st.latest(t.name, encode_utf8(id)) {
        Ok(Some(u)) => match segment::record_of(st.images(), st.blobs@, u.kind) {
            Ok(rec) => {
                let name = encode_utf8(column);
                lemma_exact(rec[name], v);
                if rec.contains_key(name) && staged::indexable(rec[name]) && value::encoded(rec[name]) == value::encoded(v) {
                    value::lemma_encoded_injective(rec[name], v);
                }
            },
            Err(_) => {},
        },
        _ => {},
    }
}

} // verus!
