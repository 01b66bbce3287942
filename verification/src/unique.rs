//! Unique indexes: no two records have one value.

use crate::bytes;
use crate::cow::{CowMap, CowSet};
use crate::error::{Error, ErrorView};
use crate::model;
use crate::schema::TableView;
use crate::secondary::{self, secondary_pair_prefix};
use crate::staged::{self, record_key, PreparedTable, StagedView};
use crate::state::{self, State};
use crate::version::{self, primary_key};
use vstd::prelude::*;
use vstd::string::*;
use vstd::utf8::*;

verus! {

/// Whether some table has a unique index.
pub open spec fn any_unique(catalog: Seq<TableView>) -> bool {
    exists|i: int, k: int| #[trigger] is_unique_index(catalog, i, k)
}

pub open spec fn is_unique_index(catalog: Seq<TableView>, i: int, k: int) -> bool {
    0 <= i < catalog.len() && 0 <= k < catalog[i].indexes.len() && catalog[i].indexes[k].unique
}

/// The staged change puts a value under a unique index of its table.
pub open spec fn claims(staged: Seq<StagedView>, i: int, j: int, k: int) -> bool {
    &&& staged::is_staged(staged, i, j)
    &&& 0 <= k < staged[i].schema.indexes.len()
    &&& staged[i].schema.indexes[k].unique
    &&& claimed(staged, i, j, k) is Some
}

/// The key that the change puts under the index.
pub open spec fn claimed(staged: Seq<StagedView>, i: int, j: int, k: int) -> Option<Seq<u8>> {
    match staged[i].changes[j].operation {
        Some(rec) => staged::key_in(rec, staged[i].schema.indexes[k].column),
        None => None,
    }
}

/// Two staged changes of different records put one value under one index.
pub open spec fn collide(staged: Seq<StagedView>, i: int, j: int, k: int, p: int, q: int, r: int) -> bool {
    &&& claims(staged, i, j, k)
    &&& claims(staged, p, q, r)
    &&& staged[i].name == staged[p].name
    &&& staged[i].schema.indexes[k].column == staged[p].schema.indexes[r].column
    &&& staged[i].changes[j].id != staged[p].changes[q].id
    &&& claimed(staged, i, j, k) == claimed(staged, p, q, r)
}

/// A committed record that no staged change touches has the value already.
pub open spec fn taken_by(st: &State, staged: Seq<StagedView>, i: int, j: int, k: int, holder: Seq<char>) -> bool {
    let slot = state::slot_of(st.secondary@, staged[i].name, staged[i].schema.indexes[k].column);
    &&& slot is Some
    &&& st.secondary@[slot->0].index.member(claimed(staged, i, j, k)->0, encode_utf8(holder))
    &&& holder != staged[i].changes[j].id
    &&& !staged::has_change(staged, staged[i].name, holder)
}

/// The index that a change is to be checked against is not there.
pub open spec fn unindexed(st: &State, staged: Seq<StagedView>, i: int, k: int) -> bool {
    state::slot_of(st.secondary@, staged[i].name, staged[i].schema.indexes[k].column) is None
}

/// The staged changes keep every unique index.
pub open spec fn unique_ok(st: &State, staged: Seq<StagedView>) -> bool {
    &&& forall|i: int, j: int, k: int, p: int, q: int, r: int| !#[trigger] collide(staged, i, j, k, p, q, r)
    &&& forall|i: int, j: int, k: int| #[trigger] claims(staged, i, j, k) ==> !unindexed(st, staged, i, k)
    &&& forall|i: int, j: int, k: int, holder: Seq<char>|
        claims(staged, i, j, k) ==> !#[trigger] taken_by(st, staged, i, j, k, holder)
}

pub open spec fn missing_index_message(table: Seq<char>, column: Seq<char>) -> Seq<char> {
    "unique index "@ + table + "."@ + column
        + " is declared by the catalog but not loaded; reopen the database to rebuild derived indexes"@
}

pub fn missing_unique_index(table: &str, column: &str) -> (e: Error)
    ensures
        e@ == ErrorView::Corrupt(missing_index_message(table@, column@)),
{
    Error::Corrupt(
        "unique index ".to_owned().concat(table).concat(".").concat(column).concat(
            " is declared by the catalog but not loaded; reopen the database to rebuild derived indexes",
        ),
    )
}

pub open spec fn violation(staged: Seq<StagedView>, i: int, k: int) -> ErrorView {
    ErrorView::UniqueViolation { table: staged[i].name, column: staged[i].schema.indexes[k].column }
}

/// Another record claims the value earlier in the transaction.
pub open spec fn collides_before(staged: Seq<StagedView>, i: int, j: int, k: int) -> bool {
    exists|p: int, q: int, r: int| before(p, q, r, i, j, k) && #[trigger] collide(staged, i, j, k, p, q, r)
}

/// What is wrong with a claim over the committed records.
pub open spec fn holder_error(st: &State, staged: Seq<StagedView>, i: int, j: int, k: int, e: ErrorView) -> bool {
    if unindexed(st, staged, i, k) {
        e == ErrorView::Corrupt(missing_index_message(staged[i].name, staged[i].schema.indexes[k].column))
    } else {
        ||| e == violation(staged, i, k) && exists|holder: Seq<char>| #[trigger] taken_by(st, staged, i, j, k, holder)
        ||| index_error(st, staged, i, j, k, e)
    }
}

/// What is wrong with a claim, where nothing is wrong with those before it.
pub open spec fn claim_error(st: &State, staged: Seq<StagedView>, i: int, j: int, k: int, e: ErrorView) -> bool {
    &&& claims(staged, i, j, k)
    &&& claims_ok(st, staged, i, j, k)
    &&& claims_apart(staged, i, j, k)
    &&& if collides_before(staged, i, j, k) {
        e == violation(staged, i, k)
    } else {
        holder_error(st, staged, i, j, k, e)
    }
}

/// No two claims before one are for the same value.
pub open spec fn claims_apart(staged: Seq<StagedView>, i: int, j: int, k: int) -> bool {
    forall|p: int, q: int, r: int, x: int, y: int, z: int|
        before(p, q, r, i, j, k) && before(x, y, z, i, j, k) ==> !#[trigger] collide(staged, p, q, r, x, y, z)
}

/// The index cannot be read.
pub open spec fn index_error(st: &State, staged: Seq<StagedView>, i: int, j: int, k: int, e: ErrorView) -> bool {
    let slot = state::slot_of(st.secondary@, staged[i].name, staged[i].schema.indexes[k].column);
    slot is Some && st.secondary@[slot->0].index.list_error(claimed(staged, i, j, k)->0, None, None, e)
}

fn catalog_has_unique(st: &State) -> (r: bool)
    ensures
        r == any_unique(st.catalog@),
{
    let ghost all = st.catalog@;
    let mut i: usize = 0;
    while i < st.catalog.tables.len()
        invariant
            i <= st.catalog.tables@.len(),
            all == st.catalog@,
            forall|p: int, q: int| #[trigger] is_unique_index(all, p, q) ==> p >= i,
        decreases st.catalog.tables@.len() - i,
    {
        let t = &st.catalog.tables[i];
        assert(all[i as int] == t@);
        let mut k: usize = 0;
        while k < t.indexes.len()
            invariant
                i < st.catalog.tables@.len(),
                all == st.catalog@,
                all[i as int] == t@,
                k <= t.indexes@.len(),
                forall|p: int, q: int| #[trigger] is_unique_index(all, p, q) ==> p > i || (p == i && q >= k),
            decreases t.indexes@.len() - k,
        {
            assert(all[i as int].indexes[k as int] == t.indexes@[k as int]@);
            if t.indexes[k].unique {
                assert(is_unique_index(all, i as int, k as int));
                return true;
            }
            k = k + 1;
        }
        i = i + 1;
    }
    false
}

/// The bytes under which a claim is remembered.
pub open spec fn claim_key(table: Seq<char>, column: Seq<char>, key: Seq<u8>) -> Seq<u8> {
    version::key_of(encode_utf8(table), secondary::pair_of(encode_utf8(column), key))
}

proof fn lemma_claim_key(t: Seq<char>, c: Seq<char>, k: Seq<u8>, u: Seq<char>, d: Seq<char>, l: Seq<u8>)
    requires
        encode_utf8(t).len() <= u32::MAX,
        encode_utf8(u).len() <= u32::MAX,
        encode_utf8(c).len() <= u32::MAX,
        encode_utf8(d).len() <= u32::MAX,
        claim_key(t, c, k) == claim_key(u, d, l),
    ensures
        t == u && c == d && k == l,
{
    version::lemma_key_injective(
        encode_utf8(t),
        secondary::pair_of(encode_utf8(c), k),
        encode_utf8(u),
        secondary::pair_of(encode_utf8(d), l),
    );
    secondary::lemma_pair_injective(encode_utf8(c), k, encode_utf8(d), l);
    bytes::lemma_utf8_injective(t, u);
    bytes::lemma_utf8_injective(c, d);
}

fn claim_bytes(table: &str, column: &str, key: &[u8]) -> (r: Vec<u8>)
    requires
        encode_utf8(table@).len() <= u32::MAX,
        encode_utf8(column@).len() <= u32::MAX,
    ensures
        r@ == claim_key(table@, column@, key@),
{
    let mut out = version::primary_table_prefix(table);
    let pair = secondary_pair_prefix(column.as_bytes());
    bytes::push_all(&mut out, pair.as_slice());
    bytes::push_all(&mut out, key);
    assert(out@ =~= claim_key(table@, column@, key@));
    out
}

/// The records that staged changes touch, by primary key.
pub open spec fn touched(staged: Seq<StagedView>, key: Seq<u8>) -> bool {
    exists|i: int, j: int| #[trigger] staged::is_staged(staged, i, j) && key == staged_key(staged, i, j)
}

pub open spec fn staged_key(staged: Seq<StagedView>, i: int, j: int) -> Seq<u8> {
    version::key_of(encode_utf8(staged[i].name), encode_utf8(staged[i].changes[j].id))
}

/// Names that fit the stored forms.
pub open spec fn names_fit(staged: Seq<StagedView>) -> bool {
    forall|i: int| 0 <= i < staged.len() ==> encode_utf8((#[trigger] staged[i]).name).len() <= u32::MAX && forall|k: int|
        0 <= k < staged[i].schema.indexes.len() ==> encode_utf8((#[trigger] staged[i].schema.indexes[k]).column).len() <= u32::MAX
}

/// The primary keys of all records that staged changes touch.
pub fn touched_keys(staged: &Vec<&PreparedTable>) -> (r: CowSet<Vec<u8>>)
    requires
        names_fit(model::views(staged@)),
    ensures
        r.wf(),
        forall|key: Seq<u8>| #[trigger] r@.contains(key) <==> touched(model::views(staged@), key),
{
    let ghost all = model::views(staged@);
    let mut out: CowSet<Vec<u8>> = CowSet::new();
    let mut i: usize = 0;
    while i < staged.len()
        invariant
            i <= staged@.len(),
            all == model::views(staged@),
            names_fit(all),
            out.wf(),
            forall|key: Seq<u8>| #[trigger] out@.contains(key) <==> exists|p: int, q: int|
                #[trigger] staged::is_staged(all, p, q) && p < i && key == staged_key(all, p, q),
        decreases staged@.len() - i,
    {
        let t = staged[i];
        assert(all[i as int] == t@);
        let mut j: usize = 0;
        while j < t.changes.len()
            invariant
                i < staged@.len(),
                all == model::views(staged@),
                names_fit(all),
                all[i as int] == t@,
                j <= t.changes@.len(),
                out.wf(),
                forall|key: Seq<u8>| #[trigger] out@.contains(key) <==> exists|p: int, q: int|
                    #[trigger] staged::is_staged(all, p, q) && (p < i || (p == i && q < j)) && key == staged_key(all, p, q),
            decreases t.changes@.len() - j,
        {
            let ghost before = out@;
            assert(all[i as int].changes[j as int] == t.changes@[j as int]@);
            let key = primary_key(t.name.as_str(), t.changes[j].id.as_str());
            let ghost kv = key@;
            out.insert(key);
            proof {
                assert(staged::is_staged(all, i as int, j as int));
                assert(kv == staged_key(all, i as int, j as int));
                assert forall|key: Seq<u8>| #[trigger] out@.contains(key) <==> exists|p: int, q: int|
                    #[trigger] staged::is_staged(all, p, q) && (p < i || (p == i && q < j + 1)) && key == staged_key(all, p, q) by {
                    if before.contains(key) {
                        let (p, q) = choose|p: int, q: int|
                            #[trigger] staged::is_staged(all, p, q) && (p < i || (p == i && q < j)) && key == staged_key(all, p, q);
                        assert(staged::is_staged(all, p, q));
                    }
                }
            }
            j = j + 1;
        }
        proof {
            assert forall|key: Seq<u8>| #[trigger] out@.contains(key) <==> exists|p: int, q: int|
                #[trigger] staged::is_staged(all, p, q) && p < i + 1 && key == staged_key(all, p, q) by {
                if out@.contains(key) {
                    let (p, q) = choose|p: int, q: int|
                        #[trigger] staged::is_staged(all, p, q) && (p < i || (p == i && q < j)) && key == staged_key(all, p, q);
                    assert(staged::is_staged(all, p, q) && p < i + 1);
                }
            }
        }
        i = i + 1;
    }
    proof {
        assert forall|key: Seq<u8>| #[trigger] out@.contains(key) <==> touched(all, key) by {
            if out@.contains(key) {
                let (p, q) = choose|p: int, q: int|
                    #[trigger] staged::is_staged(all, p, q) && p < i && key == staged_key(all, p, q);
                assert(staged::is_staged(all, p, q));
            }
            if touched(all, key) {
                let (p, q) = choose|p: int, q: int| #[trigger] staged::is_staged(all, p, q) && key == staged_key(all, p, q);
                assert(staged::is_staged(all, p, q) && p < i);
            }
        }
    }
    out
}

/// A record is touched exactly when a change is staged for it.
proof fn lemma_touched(staged: Seq<StagedView>, i: int, id: Seq<char>)
    requires
        names_fit(staged),
        0 <= i < staged.len(),
    ensures
        touched(staged, version::key_of(encode_utf8(staged[i].name), encode_utf8(id))) <==> staged::has_change(
            staged,
            staged[i].name,
            id,
        ),
{
    let key = version::key_of(encode_utf8(staged[i].name), encode_utf8(id));
    if touched(staged, key) {
        let (p, q) = choose|p: int, q: int| #[trigger] staged::is_staged(staged, p, q) && key == staged_key(staged, p, q);
        version::lemma_key_injective(
            encode_utf8(staged[i].name),
            encode_utf8(id),
            encode_utf8(staged[p].name),
            encode_utf8(staged[p].changes[q].id),
        );
        bytes::lemma_utf8_injective(staged[i].name, staged[p].name);
        bytes::lemma_utf8_injective(id, staged[p].changes[q].id);
        assert(staged::stages(staged, p, q, staged[i].name, id));
    }
    if staged::has_change(staged, staged[i].name, id) {
        let (p, q) = choose|p: int, q: int| #[trigger] staged::stages(staged, p, q, staged[i].name, id);
        assert(staged::is_staged(staged, p, q));
        assert(key == staged_key(staged, p, q));
    }
}

/// Check one claim against the committed records.
fn check_holders(
    st: &State,
    staged: &Vec<&PreparedTable>,
    touched_set: &CowSet<Vec<u8>>,
    i: usize,
    j: usize,
    k: usize,
    key: &Vec<u8>,
) -> (r: Result<(), Error>)
    requires
        st.wf(),
        names_fit(model::views(staged@)),
        touched_set.wf(),
        forall|key: Seq<u8>| #[trigger] touched_set@.contains(key) <==> touched(model::views(staged@), key),
        claims(model::views(staged@), i as int, j as int, k as int),
        claimed(model::views(staged@), i as int, j as int, k as int) == Some(key@),
        key@.len() <= u32::MAX,
    ensures
        r is Ok ==> !unindexed(st, model::views(staged@), i as int, k as int) && forall|holder: Seq<char>| !#[trigger] taken_by(
            st,
            model::views(staged@),
            i as int,
            j as int,
            k as int,
            holder,
        ),
        r matches Err(e) ==> holder_error(st, model::views(staged@), i as int, j as int, k as int, e@),
{
    let ghost all = model::views(staged@);
    let t = staged[i];
    let change = &t.changes[j];
    let def = &t.schema.indexes[k];
    proof {
        assert(all[i as int] == t@);
        assert(all[i as int].changes[j as int] == change@);
        assert(all[i as int].schema.indexes[k as int] == def@);
        state::lemma_slot_of(st.secondary@, t.name@, def.column@);
    }
    let at: usize = match st.slot(t.name.as_str(), def.column.as_str()) {
        Some(at) => at,
        None => {
            return Err(missing_unique_index(t.name.as_str(), def.column.as_str()));
        },
    };
    let index = &st.secondary[at].index;
    let holders = match index.ids(key.as_slice()) {
        Ok(ids) => ids,
        Err(e) => {
            assert(index_error(st, all, i as int, j as int, k as int, e@));
            return Err(e);
        },
    };
    let ghost ids = secondary::id_bytes(holders@);
    let mut h: usize = 0;
    while h < holders.len()
        invariant
            h <= holders@.len(),
            all == model::views(staged@),
            names_fit(all),
            i < staged@.len(),
            *t == staged@[i as int],
            j < t.changes@.len(),
            k < t.schema.indexes@.len(),
            *change == t.changes@[j as int],
            *def == t.schema.indexes@[k as int],
            all[i as int] == t@,
            all[i as int].changes[j as int] == change@,
            all[i as int].schema.indexes[k as int] == def@,
            claims(all, i as int, j as int, k as int),
            claimed(all, i as int, j as int, k as int) == Some(key@),
            touched_set.wf(),
            forall|key: Seq<u8>| #[trigger] touched_set@.contains(key) <==> touched(all, key),
            ids == secondary::id_bytes(holders@),
            state::slot_of(st.secondary@, t.name@, def.column@) == Some(at as int),
            at < st.secondary@.len(),
            *index == st.secondary@[at as int].index,
            index.is_id_list(key@, None, None, ids),
            forall|p: int| 0 <= p < h ==> holders@[p]@ == change.id@ || staged::has_change(all, t.name@, #[trigger] holders@[p]@),
        decreases holders@.len() - h,
    {
        let holder = &holders[h];
        if !bytes::same_text(holder.as_str(), change.id.as_str()) {
            let pk = primary_key(t.name.as_str(), holder.as_str());
            proof {
                lemma_touched(all, i as int, holder@);
            }
            if !touched_set.contains(pk.as_slice()) {
                proof {
                    assert(ids[h as int] == encode_utf8(holder@));
                    assert(index.member(key@, ids[h as int]));
                    assert(taken_by(st, all, i as int, j as int, k as int, holder@));
                }
                return Err(Error::UniqueViolation { table: t.name.clone(), column: def.column.clone() });
            }
        }
        h = h + 1;
    }
    proof {
        assert forall|holder: Seq<char>| !#[trigger] taken_by(st, all, i as int, j as int, k as int, holder) by {
            if taken_by(st, all, i as int, j as int, k as int, holder) {
                assert(index.member(key@, encode_utf8(holder)));
                assert(ids.contains(encode_utf8(holder)));
                let p = ids.index_of(encode_utf8(holder));
                assert(ids[p] == encode_utf8(holders@[p]@));
                bytes::lemma_utf8_injective(holder, holders@[p]@);
            }
        }
    }
    Ok(())
}

/// The claims that come before one, in the order in which they are checked.
pub open spec fn before(i: int, j: int, k: int, p: int, q: int, r: int) -> bool {
    i < p || (i == p && (j < q || (j == q && k < r)))
}

/// `seen` remembers the claims before one.
pub open spec fn remembers(staged: Seq<StagedView>, seen: Map<Seq<u8>, Seq<char>>, p: int, q: int, r: int) -> bool {
    &&& forall|i: int, j: int, k: int|
        #[trigger] claims(staged, i, j, k) && before(i, j, k, p, q, r) ==> {
            let key = claim_key(staged[i].name, staged[i].schema.indexes[k].column, claimed(staged, i, j, k)->0);
            seen.contains_key(key) && seen[key] == staged[i].changes[j].id
        }
    &&& forall|key: Seq<u8>| #[trigger] seen.contains_key(key) ==> exists|i: int, j: int, k: int|
        #[trigger] claims(staged, i, j, k) && before(i, j, k, p, q, r) && key == claim_key(
            staged[i].name,
            staged[i].schema.indexes[k].column,
            claimed(staged, i, j, k)->0,
        ) && seen[key] == staged[i].changes[j].id
}

pub open spec fn claims_ok(st: &State, staged: Seq<StagedView>, p: int, q: int, r: int) -> bool {
    forall|i: int, j: int, k: int|
        #[trigger] claims(staged, i, j, k) && before(i, j, k, p, q, r) ==> !unindexed(st, staged, i, k) && forall|holder: Seq<char>|
            !#[trigger] taken_by(st, staged, i, j, k, holder)
}

/// Check that the staged changes keep every unique index, against the
/// committed records and against each other.
#[verifier::rlimit(60)]
pub fn validate_unique(st: &State, staged: &Vec<&PreparedTable>) -> (r: Result<(), Error>)
    requires
        st.wf(),
        staged::staged_wf(staged@),
        names_fit(model::views(staged@)),
    ensures
        !any_unique(st.catalog@) ==> r is Ok,
        any_unique(st.catalog@) && r is Ok ==> unique_ok(st, model::views(staged@)),
        r matches Err(e) ==> exists|i: int, j: int, k: int| #[trigger] claim_error(st, model::views(staged@), i, j, k, e@),
{
    if !catalog_has_unique(st) {
        return Ok(());
    }
    let ghost all = model::views(staged@);
    let touched_set = touched_keys(staged);
    let mut seen: CowMap<Vec<u8>, String> = CowMap::new();
    let mut i: usize = 0;
    assert(remembers(all, seen@, 0, 0, 0));
    while i < staged.len()
        invariant
            st.wf(),
            any_unique(st.catalog@),
            i <= staged@.len(),
            all == model::views(staged@),
            staged::staged_wf(staged@),
            names_fit(all),
            touched_set.wf(),
            forall|key: Seq<u8>| #[trigger] touched_set@.contains(key) <==> touched(all, key),
            seen.wf(),
            remembers(all, seen@, i as int, 0, 0),
            claims_ok(st, all, i as int, 0, 0),
        decreases staged@.len() - i,
    {
        let t = staged[i];
        assert(all[i as int] == t@);
        assert(t.wf());
        let mut j: usize = 0;
        while j < t.changes.len()
            invariant
                st.wf(),
                any_unique(st.catalog@),
                i < staged@.len(),
                *t == staged@[i as int],
                t.wf(),
                all == model::views(staged@),
                all[i as int] == t@,
                names_fit(all),
                touched_set.wf(),
                forall|key: Seq<u8>| #[trigger] touched_set@.contains(key) <==> touched(all, key),
                j <= t.changes@.len(),
                seen.wf(),
                remembers(all, seen@, i as int, j as int, 0),
                claims_ok(st, all, i as int, j as int, 0),
            decreases t.changes@.len() - j,
        {
            let change = &t.changes[j];
            assert(change.wf());
            assert(all[i as int].changes[j as int] == change@);
            match &change.operation {
                Some(rec) => {
                    let mut k: usize = 0;
                    while k < t.schema.indexes.len()
                        invariant
                            st.wf(),
                            any_unique(st.catalog@),
                            i < staged@.len(),
                            *t == staged@[i as int],
                            j < t.changes@.len(),
                            *change == t.changes@[j as int],
                            change.operation == Some(*rec),
                            rec.wf(),
                            all == model::views(staged@),
                            all[i as int] == t@,
                            all[i as int].changes[j as int] == change@,
                            names_fit(all),
                            touched_set.wf(),
                            forall|key: Seq<u8>| #[trigger] touched_set@.contains(key) <==> touched(all, key),
                            k <= t.schema.indexes@.len(),
                            seen.wf(),
                            remembers(all, seen@, i as int, j as int, k as int),
                            claims_ok(st, all, i as int, j as int, k as int),
                        decreases t.schema.indexes@.len() - k,
                    {
                        let def = &t.schema.indexes[k];
                        let ghost iv = i as int;
                        let ghost jv = j as int;
                        let ghost kv = k as int;
                        assert(all[iv].schema.indexes[kv] == def@);
                        let found: Option<Vec<u8>> = if def.unique {
                            record_key(rec, def.column.as_str())
                        } else {
                            None
                        };
                        match found {
                            Some(key) => {
                                assert(claims(all, iv, jv, kv));
                                assert(claimed(all, iv, jv, kv) == Some(key@));
                                let comp = claim_bytes(t.name.as_str(), def.column.as_str(), key.as_slice());
                                let ghost cv = comp@;
                                let ghost old_seen = seen@;
                                let before_id = seen.insert(comp, change.id.clone());
                                match before_id {
                                    Some(other) => {
                                        if !bytes::same_text(other.as_str(), change.id.as_str()) {
                                            proof {
                                                let (p, q, r) = choose|p: int, q: int, r: int|
                                                    #[trigger] claims(all, p, q, r) && before(p, q, r, iv, jv, kv) && cv == claim_key(
                                                        all[p].name,
                                                        all[p].schema.indexes[r].column,
                                                        claimed(all, p, q, r)->0,
                                                    ) && old_seen[cv] == all[p].changes[q].id;
                                                lemma_claim_key(
                                                    all[p].name,
                                                    all[p].schema.indexes[r].column,
                                                    claimed(all, p, q, r)->0,
                                                    t.name@,
                                                    def.column@,
                                                    key@,
                                                );
                                                assert(collide(all, iv, jv, kv, p, q, r));
                                                lemma_remembered_apart(all, old_seen, iv, jv, kv);
                                                assert(claim_error(st, all, iv, jv, kv, violation(all, iv, kv)));
                                            }
                                            let e = Error::UniqueViolation { table: t.name.clone(), column: def.column.clone() };
                                            assert(e@ == violation(all, iv, kv));
                                            return Err(e);
                                        }
                                    },
                                    None => {},
                                }
                                match check_holders(st, staged, &touched_set, i, j, k, &key) {
                                    Ok(()) => {},
                                    Err(e) => {
                                        proof {
                                            lemma_remembered_apart(all, old_seen, iv, jv, kv);
                                            lemma_no_collision(all, old_seen, iv, jv, kv);
                                            assert(claim_error(st, all, iv, jv, kv, e@));
                                        }
                                        return Err(e);
                                    },
                                }
                                proof {
                                    lemma_remember(all, old_seen, iv, jv, kv);
                                    lemma_claims_step(st, all, iv, jv, kv);
                                }
                            },
                            None => {
                                proof {
                                    assert(!claims(all, iv, jv, kv));
                                    lemma_remember_none(all, seen@, iv, jv, kv);
                                    lemma_claims_step(st, all, iv, jv, kv);
                                }
                            },
                        }
                        k = k + 1;
                    }
                    proof {
                        lemma_next_change(st, all, seen@, i as int, j as int);
                    }
                },
                None => {
                    proof {
                        assert forall|k: int| !#[trigger] claims(all, i as int, j as int, k) by {}
                        lemma_next_change_empty(st, all, seen@, i as int, j as int);
                    }
                },
            }
            j = j + 1;
        }
        proof {
            lemma_next_table(st, all, seen@, i as int);
        }
        i = i + 1;
    }
    proof {
        lemma_all_claims(st, all, seen@);
    }
    Ok(())
}

/// Claims that are remembered are for different values.
proof fn lemma_remembered_apart(staged: Seq<StagedView>, seen: Map<Seq<u8>, Seq<char>>, i: int, j: int, k: int)
    requires
        remembers(staged, seen, i, j, k),
    ensures
        claims_apart(staged, i, j, k),
{
    assert forall|p: int, q: int, r: int, x: int, y: int, z: int|
        before(p, q, r, i, j, k) && before(x, y, z, i, j, k) implies !#[trigger] collide(staged, p, q, r, x, y, z) by {
        if collide(staged, p, q, r, x, y, z) {
            assert(claims(staged, p, q, r) && claims(staged, x, y, z));
        }
    }
}

/// A claim that is not remembered for another record collides with none.
proof fn lemma_no_collision(staged: Seq<StagedView>, seen: Map<Seq<u8>, Seq<char>>, i: int, j: int, k: int)
    requires
        remembers(staged, seen, i, j, k),
        claims(staged, i, j, k),
        ({
            let key = claim_key(staged[i].name, staged[i].schema.indexes[k].column, claimed(staged, i, j, k)->0);
            seen.contains_key(key) ==> seen[key] == staged[i].changes[j].id
        }),
    ensures
        !collides_before(staged, i, j, k),
{
    if collides_before(staged, i, j, k) {
        let (p, q, r) = choose|p: int, q: int, r: int|
            before(p, q, r, i, j, k) && #[trigger] collide(staged, i, j, k, p, q, r);
        assert(claims(staged, p, q, r));
    }
}

proof fn lemma_remember(staged: Seq<StagedView>, seen: Map<Seq<u8>, Seq<char>>, p: int, q: int, r: int)
    requires
        names_fit(staged),
        remembers(staged, seen, p, q, r),
        claims(staged, p, q, r),
        ({
            let key = claim_key(staged[p].name, staged[p].schema.indexes[r].column, claimed(staged, p, q, r)->0);
            seen.contains_key(key) ==> seen[key] == staged[p].changes[q].id
        }),
    ensures
        remembers(
            staged,
            seen.insert(
                claim_key(staged[p].name, staged[p].schema.indexes[r].column, claimed(staged, p, q, r)->0),
                staged[p].changes[q].id,
            ),
            p,
            q,
            r + 1,
        ),
{
    let key = claim_key(staged[p].name, staged[p].schema.indexes[r].column, claimed(staged, p, q, r)->0);
    let now = seen.insert(key, staged[p].changes[q].id);
    assert forall|i: int, j: int, k: int| #[trigger] claims(staged, i, j, k) && before(i, j, k, p, q, r + 1) implies ({
        let other = claim_key(staged[i].name, staged[i].schema.indexes[k].column, claimed(staged, i, j, k)->0);
        now.contains_key(other) && now[other] == staged[i].changes[j].id
    }) by {
        if before(i, j, k, p, q, r) {
            let other = claim_key(staged[i].name, staged[i].schema.indexes[k].column, claimed(staged, i, j, k)->0);
            assert(seen.contains_key(other));
        } else {
            assert(i == p && j == q && k == r);
        }
    }
    assert forall|other: Seq<u8>| #[trigger] now.contains_key(other) implies exists|i: int, j: int, k: int|
        #[trigger] claims(staged, i, j, k) && before(i, j, k, p, q, r + 1) && other == claim_key(
            staged[i].name,
            staged[i].schema.indexes[k].column,
            claimed(staged, i, j, k)->0,
        ) && now[other] == staged[i].changes[j].id by {
        if other == key {
            assert(claims(staged, p, q, r) && before(p, q, r, p, q, r + 1));
        } else {
            assert(seen.contains_key(other));
            let (i, j, k) = choose|i: int, j: int, k: int|
                #[trigger] claims(staged, i, j, k) && before(i, j, k, p, q, r) && other == claim_key(
                    staged[i].name,
                    staged[i].schema.indexes[k].column,
                    claimed(staged, i, j, k)->0,
                ) && seen[other] == staged[i].changes[j].id;
            assert(claims(staged, i, j, k) && before(i, j, k, p, q, r + 1));
        }
    }
}

proof fn lemma_remember_none(staged: Seq<StagedView>, seen: Map<Seq<u8>, Seq<char>>, p: int, q: int, r: int)
    requires
        remembers(staged, seen, p, q, r),
        !claims(staged, p, q, r),
    ensures
        remembers(staged, seen, p, q, r + 1),
{
    assert forall|i: int, j: int, k: int| #[trigger] claims(staged, i, j, k) implies (before(i, j, k, p, q, r + 1) <==> before(
        i,
        j,
        k,
        p,
        q,
        r,
    )) by {}
    lemma_remember_same(staged, seen, p, q, r, p, q, r + 1);
}

/// What is remembered does not depend on how the place is named.
proof fn lemma_remember_same(
    staged: Seq<StagedView>,
    seen: Map<Seq<u8>, Seq<char>>,
    p: int,
    q: int,
    r: int,
    x: int,
    y: int,
    z: int,
)
    requires
        remembers(staged, seen, p, q, r),
        forall|i: int, j: int, k: int| #[trigger] claims(staged, i, j, k) ==> (before(i, j, k, p, q, r) <==> before(i, j, k, x, y, z)),
    ensures
        remembers(staged, seen, x, y, z),
{
    assert forall|other: Seq<u8>| #[trigger] seen.contains_key(other) implies exists|i: int, j: int, k: int|
        #[trigger] claims(staged, i, j, k) && before(i, j, k, x, y, z) && other == claim_key(
            staged[i].name,
            staged[i].schema.indexes[k].column,
            claimed(staged, i, j, k)->0,
        ) && seen[other] == staged[i].changes[j].id by {
        let (i, j, k) = choose|i: int, j: int, k: int|
            #[trigger] claims(staged, i, j, k) && before(i, j, k, p, q, r) && other == claim_key(
                staged[i].name,
                staged[i].schema.indexes[k].column,
                claimed(staged, i, j, k)->0,
            ) && seen[other] == staged[i].changes[j].id;
        assert(claims(staged, i, j, k) && before(i, j, k, x, y, z));
    }
}

proof fn lemma_claims_step(st: &State, staged: Seq<StagedView>, p: int, q: int, r: int)
    requires
        claims_ok(st, staged, p, q, r),
        claims(staged, p, q, r) ==> !unindexed(st, staged, p, r) && forall|holder: Seq<char>| !#[trigger] taken_by(
            st,
            staged,
            p,
            q,
            r,
            holder,
        ),
    ensures
        claims_ok(st, staged, p, q, r + 1),
{
    assert forall|i: int, j: int, k: int| #[trigger] claims(staged, i, j, k) && before(i, j, k, p, q, r + 1) implies !unindexed(
        st,
        staged,
        i,
        k,
    ) && forall|holder: Seq<char>| !#[trigger] taken_by(st, staged, i, j, k, holder) by {
        if !before(i, j, k, p, q, r) {
            assert(i == p && j == q && k == r);
        }
    }
}

proof fn lemma_next_change(st: &State, staged: Seq<StagedView>, seen: Map<Seq<u8>, Seq<char>>, p: int, q: int)
    requires
        0 <= p < staged.len(),
        remembers(staged, seen, p, q, staged[p].schema.indexes.len() as int),
        claims_ok(st, staged, p, q, staged[p].schema.indexes.len() as int),
    ensures
        remembers(staged, seen, p, q + 1, 0),
        claims_ok(st, staged, p, q + 1, 0),
{
    let n = staged[p].schema.indexes.len() as int;
    assert forall|i: int, j: int, k: int| #[trigger] claims(staged, i, j, k) implies (before(i, j, k, p, q, n) <==> before(
        i,
        j,
        k,
        p,
        q + 1,
        0,
    )) by {}
    lemma_remember_same(staged, seen, p, q, n, p, q + 1, 0);
}

proof fn lemma_next_change_empty(st: &State, staged: Seq<StagedView>, seen: Map<Seq<u8>, Seq<char>>, p: int, q: int)
    requires
        remembers(staged, seen, p, q, 0),
        claims_ok(st, staged, p, q, 0),
        forall|k: int| !#[trigger] claims(staged, p, q, k),
    ensures
        remembers(staged, seen, p, q + 1, 0),
        claims_ok(st, staged, p, q + 1, 0),
{
    assert forall|i: int, j: int, k: int| #[trigger] claims(staged, i, j, k) implies (before(i, j, k, p, q, 0) <==> before(
        i,
        j,
        k,
        p,
        q + 1,
        0,
    )) by {}
    lemma_remember_same(staged, seen, p, q, 0, p, q + 1, 0);
}

proof fn lemma_next_table(st: &State, staged: Seq<StagedView>, seen: Map<Seq<u8>, Seq<char>>, p: int)
    requires
        0 <= p < staged.len(),
        remembers(staged, seen, p, staged[p].changes.len() as int, 0),
        claims_ok(st, staged, p, staged[p].changes.len() as int, 0),
    ensures
        remembers(staged, seen, p + 1, 0, 0),
        claims_ok(st, staged, p + 1, 0, 0),
{
    let n = staged[p].changes.len() as int;
    assert forall|i: int, j: int, k: int| #[trigger] claims(staged, i, j, k) implies (before(i, j, k, p, n, 0) <==> before(
        i,
        j,
        k,
        p + 1,
        0,
        0,
    )) by {}
    lemma_remember_same(staged, seen, p, n, 0, p + 1, 0, 0);
}

proof fn lemma_all_claims(st: &State, staged: Seq<StagedView>, seen: Map<Seq<u8>, Seq<char>>)
    requires
        remembers(staged, seen, staged.len() as int, 0, 0),
        claims_ok(st, staged, staged.len() as int, 0, 0),
    ensures
        unique_ok(st, staged),
{
    let n = staged.len() as int;
    assert forall|i: int, j: int, k: int, p: int, q: int, r: int| !#[trigger] collide(staged, i, j, k, p, q, r) by {
        if collide(staged, i, j, k, p, q, r) {
            assert(claims(staged, i, j, k) && before(i, j, k, n, 0, 0));
            assert(claims(staged, p, q, r) && before(p, q, r, n, 0, 0));
        }
    }
    assert forall|i: int, j: int, k: int| #[trigger] claims(staged, i, j, k) implies !unindexed(st, staged, i, k) by {
        assert(before(i, j, k, n, 0, 0));
    }
    assert forall|i: int, j: int, k: int, holder: Seq<char>| claims(staged, i, j, k) implies !#[trigger] taken_by(
        st,
        staged,
        i,
        j,
        k,
        holder,
    ) by {
        assert(before(i, j, k, n, 0, 0));
    }
}

} // verus!
