//! Foreign keys: a value that refers to a record finds one.

use crate::bytes;
use crate::cow::CowSet;
use crate::error::{table_not_found, Error, ErrorView};
use crate::model;
use crate::order::OrderedKey;
use crate::record::{Record, RecordView};
use crate::schema::{self, ReferentialAction, TableSchema, TableView};
use crate::secondary;
use crate::staged::{self, final_record, value_key, PreparedTable, StagedView};
use crate::state::{self, State};
use crate::value::{self, same_value, Value, ValueView};
use crate::visit;
use vstd::prelude::*;
use vstd::string::*;
use vstd::utf8::*;

verus! {

// ---- Which records have a value ---------------------------------------------

/// Whether the committed state offers the record as one that may have the
/// value.
pub open spec fn offered(st: &State, t: TableView, column: Seq<char>, v: ValueView, id: Seq<char>) -> bool {
    if column == schema::id_name() && t.implicit_id {
        v == ValueView::Text(id)
    } else {
        match state::slot_of(st.secondary@, t.name, column) {
            Some(i) => staged::indexable(v) && st.secondary@[i].index.member(value::encoded(v), encode_utf8(id)),
            None => st.index.has_record(encode_utf8(t.name), encode_utf8(id)),
        }
    }
}

/// Whether a record has the value once the staged changes are applied.
pub open spec fn has_value(st: &State, staged: Seq<StagedView>, table: Seq<char>, column: Seq<char>, v: ValueView, id: Seq<char>) -> bool {
    &&& staged::final_row(st, staged, table, id) matches Ok(Some(rec)) && rec.contains_key(encode_utf8(column)) && value::value_eq(
        rec[encode_utf8(column)],
        v,
    )
}

/// A record that is offered or changed, and has the value in the end.
pub open spec fn is_match(st: &State, staged: Seq<StagedView>, t: TableView, column: Seq<char>, v: ValueView, id: Seq<char>) -> bool {
    &&& offered(st, t, column, v, id) || staged::has_change(staged, t.name, id)
    &&& has_value(st, staged, t.name, column, v, id)
}

pub open spec fn any_match(st: &State, staged: Seq<StagedView>, t: TableView, column: Seq<char>, v: ValueView) -> bool {
    exists|id: Seq<char>| #[trigger] is_match(st, staged, t, column, v, id)
}

/// `ids` are the records that match.
pub open spec fn is_match_list(
    st: &State,
    staged: Seq<StagedView>,
    t: TableView,
    column: Seq<char>,
    v: ValueView,
    ids: Seq<Seq<char>>,
) -> bool {
    forall|id: Seq<char>| #[trigger] is_match(st, staged, t, column, v, id) <==> ids.contains(id)
}

/// What can go wrong while the records with a value are looked up.
pub open spec fn lookup_error(
    st: &State,
    staged: Seq<StagedView>,
    table: Seq<char>,
    column: Seq<char>,
    v: ValueView,
    e: ErrorView,
) -> bool {
    match st.table_view(table) {
        None => e == ErrorView::TableNotFound(table),
        Some(t) => {
            ||| exists|id: Seq<char>| #[trigger] staged::final_row(st, staged, table, id) == Err::<Option<RecordView>, ErrorView>(e)
            ||| directory_error(st, t, e)
            ||| (state::slot_of(st.secondary@, table, column) matches Some(i) && pair_error(st, i, value::encoded(v), e))
        },
    }
}

pub open spec fn directory_error(st: &State, t: TableView, e: ErrorView) -> bool {
    exists|key: Seq<u8>, m: Seq<char>| #[trigger] st.index.is_fault(encode_utf8(t.name), key, m) && e == ErrorView::Corrupt(m)
}

pub open spec fn pair_error(st: &State, slot: int, key: Seq<u8>, e: ErrorView) -> bool {
    exists|pair: Seq<u8>, m: Seq<char>| #[trigger] st.secondary@[slot].index.is_fault(key, pair, m) && e == ErrorView::Corrupt(m)
}

/// The records that the committed state offers.
fn offered_ids(st: &State, schema: &TableSchema, column: &str, v: &Value) -> (r: Result<CowSet<String>, Error>)
    requires
        st.wf(),
        st.table_view(schema@.name) == Some(schema@),
    ensures
        r matches Ok(ids) ==> ids.wf() && forall|id: Seq<char>|
            #[trigger] ids@.contains(encode_utf8(id)) <==> offered(st, schema@, column@, v@, id),
        r matches Err(e) ==> directory_error(st, schema@, e@) || (state::slot_of(st.secondary@, schema@.name, column@) matches Some(i)
            && pair_error(st, i, value::encoded(v@), e@)),
{
    let mut ids: CowSet<String> = CowSet::new();
    if schema.has_implicit_id() && bytes::same_text(column, schema::ID_COLUMN) {
        match v {
            Value::Text(s) => {
                ids.insert(s.clone());
                proof {
                    assert forall|id: Seq<char>| #[trigger] ids@.contains(encode_utf8(id)) <==> offered(st, schema@, column@, v@, id) by {
                        bytes::lemma_utf8_injective(id, s@);
                    }
                }
            },
            _ => {},
        }
        return Ok(ids);
    }
    proof {
        state::lemma_slot_of(st.secondary@, schema@.name, column@);
    }
    match st.slot(schema.name.as_str(), column) {
        Some(at) => {
            let key = match value_key(v) {
                Some(key) => key,
                None => {
                    return Ok(ids);
                },
            };
            let index = &st.secondary[at].index;
            let found = match index.ids(key.as_slice()) {
                Ok(found) => found,
                Err(e) => {
                    proof {
                        let (pair, m) = choose|pair: Seq<u8>, m: Seq<char>|
                            #[trigger] index.is_fault(key@, pair, m) && e@ == ErrorView::Corrupt(m);
                        assert(st.secondary@[at as int].index.is_fault(value::encoded(v@), pair, m));
                        assert(pair_error(st, at as int, value::encoded(v@), e@));
                    }
                    return Err(e);
                },
            };
            let ghost listed = secondary::id_bytes(found@);
            let out = CowSet::from_vec(found);
            proof {
                assert forall|id: Seq<char>| #[trigger] out@.contains(encode_utf8(id)) <==> offered(st, schema@, column@, v@, id) by {
                    let b = encode_utf8(id);
                    if out@.contains(b) {
                        let i = choose|i: int| 0 <= i < found@.len() && (#[trigger] found@[i]).rank() == b;
                        assert(listed[i] == b);
                        assert(index.member(key@, listed[i]));
                    }
                    if index.member(key@, b) {
                        assert(listed.contains(b));
                        let i = listed.index_of(b);
                        assert(found@[i].rank() == b);
                    }
                }
            }
            Ok(out)
        },
        None => {
            proof {
                st.lemma_table(schema@.name);
            }
            let groups = match st.index.visit_table(schema.name.as_str(), None, None) {
                Ok(groups) => groups,
                Err(e) => {
                    return Err(e);
                },
            };
            let ghost gv = model::views(groups@);
            let ghost tb = encode_utf8(schema@.name);
            let mut i: usize = 0;
            while i < groups.len()
                invariant
                    i <= groups@.len(),
                    gv == model::views(groups@),
                    ids.wf(),
                    forall|b: Seq<u8>| #[trigger] ids@.contains(b) <==> exists|q: int| 0 <= q < i && (#[trigger] gv[q]).id == b,
                decreases groups@.len() - i,
            {
                let ghost before = ids@;
                assert(gv[i as int] == groups@[i as int]@);
                ids.insert(groups[i].id.clone());
                proof {
                    assert forall|b: Seq<u8>| #[trigger] ids@.contains(b) <==> exists|q: int| 0 <= q < i + 1 && (#[trigger] gv[q]).id == b by {
                        if before.contains(b) {
                            let q = choose|q: int| 0 <= q < i && (#[trigger] gv[q]).id == b;
                            assert(gv[q].id == b);
                        }
                        if ids@.contains(b) && !before.contains(b) {
                            assert(gv[i as int].id == b);
                        }
                    }
                }
                i = i + 1;
            }
            proof {
                assert forall|id: Seq<char>| #[trigger] ids@.contains(encode_utf8(id)) <==> offered(st, schema@, column@, v@, id) by {
                    let b = encode_utf8(id);
                    if ids@.contains(b) {
                        let q = choose|q: int| 0 <= q < i && (#[trigger] gv[q]).id == b;
                        assert(st.index.is_record(tb, visit::text_bytes(None), gv[q]));
                    }
                    if st.index.has_record(tb, b) {
                        assert(visit::id_wanted(visit::text_bytes(None), b));
                        assert(visit::lists_id(gv, b));
                        let q = choose|q: int| 0 <= q < gv.len() && (#[trigger] gv[q]).id == b;
                        assert(gv[q].id == b);
                    }
                }
            }
            Ok(ids)
        },
    }
}

/// Add the records of a table that staged changes touch.
fn add_staged(ids: CowSet<String>, staged: &Vec<&PreparedTable>, table: &str) -> (r: CowSet<String>)
    requires
        ids.wf(),
    ensures
        r.wf(),
        forall|id: Seq<char>| #[trigger] r@.contains(encode_utf8(id)) <==> ids@.contains(encode_utf8(id)) || staged::has_change(
            model::views(staged@),
            table@,
            id,
        ),
{
    let ghost all = model::views(staged@);
    let ghost start = ids@;
    let mut ids = ids;
    let mut i: usize = 0;
    while i < staged.len()
        invariant
            i <= staged@.len(),
            all == model::views(staged@),
            ids.wf(),
            forall|id: Seq<char>| #[trigger] ids@.contains(encode_utf8(id)) <==> start.contains(encode_utf8(id)) || exists|p: int, q: int|
                #[trigger] staged::stages(all, p, q, table@, id) && p < i,
        decreases staged@.len() - i,
    {
        let t = staged[i];
        assert(all[i as int] == t@);
        let ghost outer = ids@;
        if bytes::same_text(t.name.as_str(), table) {
            let mut j: usize = 0;
            while j < t.changes.len()
                invariant
                    i < staged@.len(),
                    all == model::views(staged@),
                    all[i as int] == t@,
                    t.name@ == table@,
                    j <= t.changes@.len(),
                    ids.wf(),
                    forall|id: Seq<char>| #[trigger] ids@.contains(encode_utf8(id)) <==> outer.contains(encode_utf8(id)) || exists|q: int|
                        #[trigger] staged::stages(all, i as int, q, table@, id) && q < j,
                decreases t.changes@.len() - j,
            {
                let ghost before = ids@;
                assert(all[i as int].changes[j as int] == t.changes@[j as int]@);
                ids.insert(t.changes[j].id.clone());
                proof {
                    let mine = t.changes@[j as int].id@;
                    assert(staged::stages(all, i as int, j as int, table@, mine));
                    assert forall|id: Seq<char>| #[trigger] ids@.contains(encode_utf8(id)) <==> outer.contains(encode_utf8(id)) || exists|
                        q: int,
                    | #[trigger] staged::stages(all, i as int, q, table@, id) && q < j + 1 by {
                        bytes::lemma_utf8_injective(id, mine);
                        if before.contains(encode_utf8(id)) && !outer.contains(encode_utf8(id)) {
                            let q = choose|q: int| #[trigger] staged::stages(all, i as int, q, table@, id) && q < j;
                            assert(staged::stages(all, i as int, q, table@, id) && q < j + 1);
                        }
                    }
                }
                j = j + 1;
            }
        }
        proof {
            assert forall|id: Seq<char>| #[trigger] ids@.contains(encode_utf8(id)) <==> start.contains(encode_utf8(id)) || exists|
                p: int,
                q: int,
            | #[trigger] staged::stages(all, p, q, table@, id) && p < i + 1 by {
                if outer.contains(encode_utf8(id)) && !start.contains(encode_utf8(id)) {
                    let (p, q) = choose|p: int, q: int| #[trigger] staged::stages(all, p, q, table@, id) && p < i;
                    assert(staged::stages(all, p, q, table@, id) && p < i + 1);
                }
                if ids@.contains(encode_utf8(id)) && !outer.contains(encode_utf8(id)) {
                    assert(t.name@ == table@);
                    let q = choose|q: int| #[trigger] staged::stages(all, i as int, q, table@, id);
                    assert(staged::stages(all, i as int, q, table@, id) && (i as int) < i + 1);
                }
                if exists|p: int, q: int| #[trigger] staged::stages(all, p, q, table@, id) && p < i + 1 {
                    let (p, q) = choose|p: int, q: int| #[trigger] staged::stages(all, p, q, table@, id) && p < i + 1;
                    if p < i {
                        assert(outer.contains(encode_utf8(id)));
                    } else {
                        assert(staged::stages(all, i as int, q, table@, id));
                    }
                }
            }
        }
        i = i + 1;
    }
    proof {
        assert forall|id: Seq<char>| #[trigger] ids@.contains(encode_utf8(id)) <==> start.contains(encode_utf8(id)) || staged::has_change(
            all,
            table@,
            id,
        ) by {
            if staged::has_change(all, table@, id) {
                let (p, q) = choose|p: int, q: int| #[trigger] staged::stages(all, p, q, table@, id);
                assert(staged::stages(all, p, q, table@, id) && p < i);
            }
        }
    }
    ids
}

/// The records that have the value once the staged changes are applied.
pub fn final_ids_matching(st: &State, staged: &Vec<&PreparedTable>, table: &str, column: &str, v: &Value) -> (r: Result<Vec<String>, Error>)
    requires
        st.wf(),
        staged::staged_wf(staged@),
        staged::changes_distinct(model::views(staged@)),
    ensures
        r matches Ok(ids) ==> st.table_view(table@) is Some && is_match_list(
            st,
            model::views(staged@),
            st.table_view(table@)->0,
            column@,
            v@,
            model::views(ids@),
        ),
        r matches Err(e) ==> lookup_error(st, model::views(staged@), table@, column@, v@, e@),
{
    let ghost all = model::views(staged@);
    let schema = match st.catalog.table(table) {
        None => {
            return Err(table_not_found(table));
        },
        Some(t) => t,
    };
    proof {
        st.lemma_table(table@);
    }
    let offered_set = match offered_ids(st, schema, column, v) {
        Ok(ids) => ids,
        Err(e) => {
            return Err(e);
        },
    };
    let ghost offered_view = offered_set@;
    let candidates = add_staged(offered_set, staged, table);
    let list = candidates.iter();
    let ghost members = candidates.members();
    proof {
        candidates.lemma_members();
    }
    let mut out: Vec<String> = Vec::new();
    let mut i: usize = 0;
    while i < list.len()
        invariant
            st.wf(),
            staged::staged_wf(staged@),
            all == model::views(staged@),
            staged::changes_distinct(all),
            st.table_view(table@) == Some(schema@),
            schema@.name == table@,
            i <= list@.len(),
            crate::cow::ranks(list@) == members,
            forall|k: Seq<u8>| #[trigger] candidates@.contains(k) <==> members.contains(k),
            forall|id: Seq<char>| #[trigger] candidates@.contains(encode_utf8(id)) <==> offered(st, schema@, column@, v@, id)
                || staged::has_change(all, table@, id),
            forall|p: int| 0 <= p < out@.len() ==> is_match(st, all, schema@, column@, v@, (#[trigger] out@[p])@),
            forall|p: int|
                0 <= p < i && has_value(st, all, table@, column@, v@, (#[trigger] list@[p])@) ==> exists|q: int|
                    0 <= q < out@.len() && (#[trigger] out@[q])@ == list@[p]@,
        decreases list@.len() - i,
    {
        let id = list[i];
        let ghost before = out@;
        proof {
            assert(crate::cow::ranks(list@)[i as int] == id.rank());
            assert(members.contains(members[i as int]));
            assert(candidates@.contains(encode_utf8(id@)));
        }
        match final_record(st, staged, table, id.as_str()) {
            Err(e) => {
                assert(staged::final_row(st, all, table@, id@) == Err::<Option<RecordView>, ErrorView>(e@));
                return Err(e);
            },
            Ok(None) => {},
            Ok(Some(rec)) => {
                let same: bool = match rec.get(column.as_bytes()) {
                    Some(found) => same_value(found, v),
                    None => false,
                };
                if same {
                    out.push(id.clone());
                    assert(out@[before.len() as int]@ == id@);
                    assert(is_match(st, all, schema@, column@, v@, id@));
                }
            },
        }
        proof {
            assert forall|p: int| 0 <= p < i + 1 && has_value(st, all, table@, column@, v@, (#[trigger] list@[p])@) implies exists|q: int|
                0 <= q < out@.len() && (#[trigger] out@[q])@ == list@[p]@ by {
                if p < i {
                    let q = choose|q: int| 0 <= q < before.len() && (#[trigger] before[q])@ == list@[p]@;
                    assert(out@[q]@ == list@[p]@);
                } else {
                    assert(out@[before.len() as int]@ == list@[p]@);
                }
            }
            assert forall|p: int| 0 <= p < out@.len() implies is_match(st, all, schema@, column@, v@, (#[trigger] out@[p])@) by {
                if p < before.len() {
                    assert(out@[p] == before[p]);
                }
            }
        }
        i = i + 1;
    }
    proof {
        assert forall|id: Seq<char>| #[trigger] is_match(st, all, schema@, column@, v@, id) implies exists|q: int|
            0 <= q < out@.len() && (#[trigger] out@[q])@ == id by {
            assert(candidates@.contains(encode_utf8(id)));
            let p = members.index_of(encode_utf8(id));
            assert(crate::cow::ranks(list@)[p] == list@[p].rank());
            bytes::lemma_utf8_injective(list@[p]@, id);
        }
        let ids = model::views(out@);
        assert forall|id: Seq<char>| #[trigger] is_match(st, all, schema@, column@, v@, id) <==> ids.contains(id) by {
            if is_match(st, all, schema@, column@, v@, id) {
                let q = choose|q: int| 0 <= q < out@.len() && (#[trigger] out@[q])@ == id;
                assert(ids[q] == id);
            }
            if ids.contains(id) {
                let q = ids.index_of(id);
                assert(out@[q]@ == id);
            }
        }
    }
    Ok(out)
}

fn nothing_matches(st: &State, staged: &Vec<&PreparedTable>, table: &str, column: &str, v: &Value) -> (r: Result<bool, Error>)
    requires
        st.wf(),
        staged::staged_wf(staged@),
        staged::changes_distinct(model::views(staged@)),
    ensures
        r matches Ok(b) ==> st.table_view(table@) is Some && b == !any_match(
            st,
            model::views(staged@),
            st.table_view(table@)->0,
            column@,
            v@,
        ),
        r matches Err(e) ==> lookup_error(st, model::views(staged@), table@, column@, v@, e@),
{
    match final_ids_matching(st, staged, table, column, v) {
        Err(e) => Err(e),
        Ok(ids) => {
            proof {
                let listed = model::views(ids@);
                if ids@.len() > 0 {
                    assert(listed.contains(listed[0]));
                    assert(is_match(st, model::views(staged@), st.table_view(table@)->0, column@, v@, listed[0]));
                }
            }
            Ok(ids.len() == 0)
        },
    }
}

// ---- Children ---------------------------------------------------------------

/// The value with which a staged record refers to another table.
pub open spec fn reference(staged: Seq<StagedView>, i: int, j: int, f: int) -> Option<ValueView> {
    match staged[i].changes[j].operation {
        None => None,
        Some(rec) => {
            let name = encode_utf8(staged[i].schema.foreign_keys[f].column);
            if rec.contains_key(name) && !(rec[name] is Null) {
                Some(rec[name])
            } else {
                None
            }
        },
    }
}

pub open spec fn refers(staged: Seq<StagedView>, i: int, j: int, f: int) -> bool {
    &&& staged::is_staged(staged, i, j)
    &&& 0 <= f < staged[i].schema.foreign_keys.len()
    &&& reference(staged, i, j, f) is Some
}

/// The reference finds a record in the final state.
pub open spec fn resolves(st: &State, staged: Seq<StagedView>, i: int, j: int, f: int) -> bool {
    let fk = staged[i].schema.foreign_keys[f];
    st.table_view(fk.referenced_table) matches Some(t) && any_match(
        st,
        staged,
        t,
        fk.referenced_column,
        reference(staged, i, j, f)->0,
    )
}

pub open spec fn orphan_error(staged: Seq<StagedView>, i: int, f: int) -> ErrorView {
    let fk = staged[i].schema.foreign_keys[f];
    ErrorView::SchemaViolation(
        "foreign key violation: "@ + staged[i].name + "."@ + fk.column + " has no matching "@ + fk.referenced_table + "."@
            + fk.referenced_column,
    )
}

/// What is wrong with a reference.
pub open spec fn reference_error(st: &State, staged: Seq<StagedView>, i: int, j: int, f: int, e: ErrorView) -> bool {
    let fk = staged[i].schema.foreign_keys[f];
    &&& refers(staged, i, j, f)
    &&& {
        ||| !resolves(st, staged, i, j, f) && e == orphan_error(staged, i, f)
        ||| lookup_error(st, staged, fk.referenced_table, fk.referenced_column, reference(staged, i, j, f)->0, e)
    }
}

/// Check one reference of a staged record.
fn check_reference(st: &State, staged: &Vec<&PreparedTable>, i: usize, j: usize, f: usize) -> (r: Result<(), Error>)
    requires
        st.wf(),
        staged::staged_wf(staged@),
        staged::changes_distinct(model::views(staged@)),
        staged::is_staged(model::views(staged@), i as int, j as int),
        f < staged@[i as int].schema.foreign_keys@.len(),
    ensures
        r is Ok ==> (refers(model::views(staged@), i as int, j as int, f as int) ==> resolves(
            st,
            model::views(staged@),
            i as int,
            j as int,
            f as int,
        )),
        r matches Err(e) ==> reference_error(st, model::views(staged@), i as int, j as int, f as int, e@),
{
    let ghost all = model::views(staged@);
    let t = staged[i];
    assert(all[i as int] == t@);
    assert(t.wf());
    let change = &t.changes[j];
    let fk = &t.schema.foreign_keys[f];
    assert(change.wf());
    assert(all[i as int].changes[j as int] == change@);
    assert(all[i as int].schema.foreign_keys[f as int] == fk@);
    let rec = match &change.operation {
        Some(rec) => rec,
        None => {
            return Ok(());
        },
    };
    match rec.get(fk.column.as_str().as_bytes()) {
        None => Ok(()),
        Some(v) => {
            if v.is_null() {
                return Ok(());
            }
            match nothing_matches(st, staged, fk.referenced_table.as_str(), fk.referenced_column.as_str(), v) {
                Err(e) => Err(e),
                Ok(false) => Ok(()),
                Ok(true) => {
                    let e = Error::SchemaViolation(
                        "foreign key violation: ".to_owned().concat(t.name.as_str()).concat(".").concat(fk.column.as_str()).concat(
                            " has no matching ",
                        ).concat(fk.referenced_table.as_str()).concat(".").concat(fk.referenced_column.as_str()),
                    );
                    assert(e@ == orphan_error(all, i as int, f as int));
                    Err(e)
                },
            }
        },
    }
}

// ---- Parents ----------------------------------------------------------------

/// The committed record that a staged change replaces.
pub open spec fn replaced(st: &State, staged: Seq<StagedView>, i: int, j: int) -> Result<Option<RecordView>, ErrorView> {
    st.row(staged[i].name, staged[i].changes[j].id, u64::MAX)
}

/// A foreign key of the catalog: the table and its place there.
pub open spec fn is_foreign_key(catalog: Seq<TableView>, c: int, f: int) -> bool {
    0 <= c < catalog.len() && 0 <= f < catalog[c].foreign_keys.len()
}

/// The value of the replaced record that the foreign key may refer to.
pub open spec fn old_value(st: &State, staged: Seq<StagedView>, i: int, j: int, c: int, f: int) -> Option<ValueView> {
    let name = encode_utf8(st.catalog@[c].foreign_keys[f].referenced_column);
    match replaced(st, staged, i, j) {
        Ok(Some(rec)) => if rec.contains_key(name) {
            Some(rec[name])
        } else {
            None
        },
        _ => None,
    }
}

/// The change keeps the value that the foreign key refers to.
pub open spec fn keeps_value(st: &State, staged: Seq<StagedView>, i: int, j: int, c: int, f: int) -> bool {
    let column = st.catalog@[c].foreign_keys[f].referenced_column;
    let name = encode_utf8(column);
    staged[i].changes[j].operation matches Some(rec) && ((staged[i].schema.implicit_id && column == schema::id_name())
        || (rec.contains_key(name) && value::value_eq(rec[name], old_value(st, staged, i, j, c, f)->0)))
}

/// The change takes a value away that the foreign key may refer to.
pub open spec fn withdraws(st: &State, staged: Seq<StagedView>, i: int, j: int, c: int, f: int) -> bool {
    &&& staged::is_staged(staged, i, j)
    &&& is_foreign_key(st.catalog@, c, f)
    &&& st.catalog@[c].foreign_keys[f].referenced_table == staged[i].name
    &&& old_value(st, staged, i, j, c, f) is Some
    &&& !(old_value(st, staged, i, j, c, f)->0 is Null)
    &&& !keeps_value(st, staged, i, j, c, f)
}

/// A record still refers to the value, and no record has it.
pub open spec fn breaks(st: &State, staged: Seq<StagedView>, i: int, j: int, c: int, f: int) -> bool {
    let fk = st.catalog@[c].foreign_keys[f];
    let v = old_value(st, staged, i, j, c, f)->0;
    &&& withdraws(st, staged, i, j, c, f)
    &&& st.table_view(staged[i].name) matches Some(t) && !any_match(st, staged, t, fk.referenced_column, v)
    &&& st.table_view(st.catalog@[c].name) matches Some(t) && any_match(st, staged, t, fk.column, v)
}

pub open spec fn break_error(st: &State, staged: Seq<StagedView>, i: int, j: int, c: int, f: int) -> ErrorView {
    let fk = st.catalog@[c].foreign_keys[f];
    let parent = staged[i].name;
    let child = st.catalog@[c].name;
    if staged[i].changes[j].operation is Some {
        ErrorView::SchemaViolation(
            "cannot replace referenced key "@ + parent + "."@ + fk.referenced_column + ": referenced by "@ + child + "."@ + fk.column
                + "; ON UPDATE is not supported"@,
        )
    } else {
        match fk.on_delete {
            ReferentialAction::Restrict => ErrorView::SchemaViolation(
                "cannot delete "@ + parent + "."@ + staged[i].changes[j].id + ": referenced by "@ + child + "."@ + fk.column,
            ),
            ReferentialAction::Cascade => ErrorView::Conflict(
                "cascade for "@ + parent + "/"@ + staged[i].changes[j].id + " must be retried after concurrent child change"@,
            ),
        }
    }
}

/// What is wrong with a change of a record that others may refer to.
pub open spec fn parent_error(st: &State, staged: Seq<StagedView>, i: int, j: int, c: int, f: int, e: ErrorView) -> bool {
    let fk = st.catalog@[c].foreign_keys[f];
    let v = old_value(st, staged, i, j, c, f)->0;
    &&& is_foreign_key(st.catalog@, c, f)
    &&& {
        ||| breaks(st, staged, i, j, c, f) && e == break_error(st, staged, i, j, c, f)
        ||| withdraws(st, staged, i, j, c, f) && lookup_error(st, staged, staged[i].name, fk.referenced_column, v, e)
        ||| withdraws(st, staged, i, j, c, f) && lookup_error(st, staged, st.catalog@[c].name, fk.column, v, e)
    }
}

/// Check one change against one foreign key that refers to its table.
fn check_parent(st: &State, staged: &Vec<&PreparedTable>, i: usize, j: usize, c: usize, f: usize, old_rec: &Record) -> (r: Result<
    (),
    Error,
>)
    requires
        st.wf(),
        staged::staged_wf(staged@),
        staged::changes_distinct(model::views(staged@)),
        staged::is_staged(model::views(staged@), i as int, j as int),
        is_foreign_key(st.catalog@, c as int, f as int),
        old_rec.wf(),
        replaced(st, model::views(staged@), i as int, j as int) == Ok::<Option<RecordView>, ErrorView>(Some(old_rec@)),
    ensures
        r is Ok ==> !breaks(st, model::views(staged@), i as int, j as int, c as int, f as int),
        r matches Err(e) ==> parent_error(st, model::views(staged@), i as int, j as int, c as int, f as int, e@),
{
    let ghost all = model::views(staged@);
    let ghost iv = i as int;
    let ghost jv = j as int;
    let ghost cv = c as int;
    let ghost fv = f as int;
    let parent = staged[i];
    assert(all[iv] == parent@);
    assert(parent.wf());
    let change = &parent.changes[j];
    assert(change.wf());
    assert(all[iv].changes[jv] == change@);
    let child = &st.catalog.tables[c];
    assert(st.catalog@[cv] == child@);
    let fk = &child.foreign_keys[f];
    assert(st.catalog@[cv].foreign_keys[fv] == fk@);
    if !bytes::same_text(fk.referenced_table.as_str(), parent.name.as_str()) {
        return Ok(());
    }
    let v = match old_rec.get(fk.referenced_column.as_str().as_bytes()) {
        None => {
            return Ok(());
        },
        Some(v) => v,
    };
    assert(old_value(st, all, iv, jv, cv, fv) == Some(v@));
    let kept: bool = match &change.operation {
        None => false,
        Some(rec) => (parent.schema.has_implicit_id() && bytes::same_text(fk.referenced_column.as_str(), schema::ID_COLUMN)) || (match rec.get(
            fk.referenced_column.as_str().as_bytes(),
        ) {
            Some(w) => same_value(w, v),
            None => false,
        }),
    };
    assert(kept == keeps_value(st, all, iv, jv, cv, fv));
    if kept || v.is_null() {
        return Ok(());
    }
    assert(withdraws(st, all, iv, jv, cv, fv));
    match nothing_matches(st, staged, parent.name.as_str(), fk.referenced_column.as_str(), v) {
        Err(e) => {
            return Err(e);
        },
        Ok(false) => {
            return Ok(());
        },
        Ok(true) => {},
    }
    match nothing_matches(st, staged, child.name.as_str(), fk.column.as_str(), v) {
        Err(e) => {
            return Err(e);
        },
        Ok(true) => {
            return Ok(());
        },
        Ok(false) => {},
    }
    assert(breaks(st, all, iv, jv, cv, fv));
    let e = if change.operation.is_some() {
        Error::SchemaViolation(
            "cannot replace referenced key ".to_owned().concat(parent.name.as_str()).concat(".").concat(
                fk.referenced_column.as_str(),
            ).concat(": referenced by ").concat(child.name.as_str()).concat(".").concat(fk.column.as_str()).concat(
                "; ON UPDATE is not supported",
            ),
        )
    } else {
        match fk.on_delete {
            ReferentialAction::Restrict => Error::SchemaViolation(
                "cannot delete ".to_owned().concat(parent.name.as_str()).concat(".").concat(change.id.as_str()).concat(
                    ": referenced by ",
                ).concat(child.name.as_str()).concat(".").concat(fk.column.as_str()),
            ),
            ReferentialAction::Cascade => Error::Conflict(
                "cascade for ".to_owned().concat(parent.name.as_str()).concat("/").concat(change.id.as_str()).concat(
                    " must be retried after concurrent child change",
                ),
            ),
        }
    };
    assert(e@ == break_error(st, all, iv, jv, cv, fv));
    Err(e)
}

/// Check one change against every foreign key.
fn check_withdrawn(st: &State, staged: &Vec<&PreparedTable>, i: usize, j: usize, old_rec: &Record) -> (r: Result<(), Error>)
    requires
        st.wf(),
        staged::staged_wf(staged@),
        staged::changes_distinct(model::views(staged@)),
        staged::is_staged(model::views(staged@), i as int, j as int),
        old_rec.wf(),
        replaced(st, model::views(staged@), i as int, j as int) == Ok::<Option<RecordView>, ErrorView>(Some(old_rec@)),
    ensures
        r is Ok ==> forall|c: int, f: int| !#[trigger] breaks(st, model::views(staged@), i as int, j as int, c, f),
        r matches Err(e) ==> exists|c: int, f: int|
            #[trigger] parent_error(st, model::views(staged@), i as int, j as int, c, f, e@) && forall|p: int, q: int|
                #[trigger] breaks(st, model::views(staged@), i as int, j as int, p, q) ==> p > c || (p == c && q >= f),
{
    let ghost all = model::views(staged@);
    let mut c: usize = 0;
    while c < st.catalog.tables.len()
        invariant
            st.wf(),
            staged::staged_wf(staged@),
            all == model::views(staged@),
            staged::changes_distinct(all),
            staged::is_staged(all, i as int, j as int),
            old_rec.wf(),
            replaced(st, all, i as int, j as int) == Ok::<Option<RecordView>, ErrorView>(Some(old_rec@)),
            c <= st.catalog.tables@.len(),
            forall|p: int, q: int| #[trigger] breaks(st, all, i as int, j as int, p, q) ==> p >= c,
        decreases st.catalog.tables@.len() - c,
    {
        let mut f: usize = 0;
        assert(st.catalog@[c as int] == st.catalog.tables@[c as int]@);
        while f < st.catalog.tables[c].foreign_keys.len()
            invariant
                st.wf(),
                staged::staged_wf(staged@),
                all == model::views(staged@),
                staged::changes_distinct(all),
                staged::is_staged(all, i as int, j as int),
                old_rec.wf(),
                replaced(st, all, i as int, j as int) == Ok::<Option<RecordView>, ErrorView>(Some(old_rec@)),
                c < st.catalog.tables@.len(),
                st.catalog@[c as int] == st.catalog.tables@[c as int]@,
                f <= st.catalog.tables@[c as int].foreign_keys@.len(),
                forall|p: int, q: int| #[trigger] breaks(st, all, i as int, j as int, p, q) ==> p > c || (p == c && q >= f),
            decreases st.catalog.tables@[c as int].foreign_keys@.len() - f,
        {
            match check_parent(st, staged, i, j, c, f, old_rec) {
                Ok(()) => {},
                Err(e) => {
                    return Err(e);
                },
            }
            f = f + 1;
        }
        c = c + 1;
    }
    Ok(())
}

// ---- The whole check --------------------------------------------------------

pub open spec fn any_foreign_key(catalog: Seq<TableView>) -> bool {
    exists|c: int, f: int| #[trigger] is_foreign_key(catalog, c, f)
}

/// The staged changes keep every foreign key.
pub open spec fn foreign_ok(st: &State, staged: Seq<StagedView>) -> bool {
    &&& all_resolve(st, staged)
    &&& forall|i: int, j: int, c: int, f: int| !#[trigger] breaks(st, staged, i, j, c, f)
}

/// Every reference before one, in the order of the changes, finds a record.
pub open spec fn resolved_before(st: &State, staged: Seq<StagedView>, i: int, j: int, f: int) -> bool {
    forall|p: int, q: int, s: int|
        #[trigger] refers(staged, p, q, s) && (p < i || (p == i && (q < j || (q == j && s < f)))) ==> resolves(st, staged, p, q, s)
}

/// No change before one, and none of its own foreign keys before `(c, f)`,
/// breaks a reference.
pub open spec fn unbroken_before(st: &State, staged: Seq<StagedView>, i: int, j: int, c: int, f: int) -> bool {
    forall|p: int, q: int, d: int, g: int|
        #[trigger] breaks(st, staged, p, q, d, g) ==> p > i || (p == i && (q > j || (q == j && (d > c || (d == c && g >= f)))))
}

/// The first reference that finds no record, or cannot be followed.
pub open spec fn first_reference_error(st: &State, staged: Seq<StagedView>, i: int, j: int, f: int, e: ErrorView) -> bool {
    reference_error(st, staged, i, j, f, e) && resolved_before(st, staged, i, j, f)
}

/// What is wrong first with the staged changes: the references of the staged
/// records come before those to them, each in the order of the changes.
pub open spec fn foreign_error(st: &State, staged: Seq<StagedView>, e: ErrorView) -> bool {
    ||| exists|i: int, j: int, f: int| #[trigger] first_reference_error(st, staged, i, j, f, e)
    ||| all_resolve(st, staged) && exists|i: int, j: int, c: int, f: int|
        #[trigger] parent_error(st, staged, i, j, c, f, e) && unbroken_before(st, staged, i, j, c, f)
    ||| all_resolve(st, staged) && exists|i: int, j: int|
        #[trigger] staged::is_staged(staged, i, j) && unbroken_before(st, staged, i, j, 0, 0) && replaced(st, staged, i, j) == Err::<
            Option<RecordView>,
            ErrorView,
        >(e)
}

pub open spec fn all_resolve(st: &State, staged: Seq<StagedView>) -> bool {
    forall|i: int, j: int, f: int| #[trigger] refers(staged, i, j, f) ==> resolves(st, staged, i, j, f)
}

fn catalog_has_foreign_key(st: &State) -> (r: bool)
    ensures
        r == any_foreign_key(st.catalog@),
{
    let mut c: usize = 0;
    while c < st.catalog.tables.len()
        invariant
            c <= st.catalog.tables@.len(),
            forall|p: int, q: int| #[trigger] is_foreign_key(st.catalog@, p, q) ==> p >= c,
        decreases st.catalog.tables@.len() - c,
    {
        assert(st.catalog@[c as int] == st.catalog.tables@[c as int]@);
        if st.catalog.tables[c].foreign_keys.len() > 0 {
            assert(is_foreign_key(st.catalog@, c as int, 0));
            return true;
        }
        c = c + 1;
    }
    false
}

/// Whether some foreign key refers to the table.
fn is_referenced(st: &State, table: &str) -> (r: bool)
    ensures
        !r ==> forall|c: int, f: int|
            #[trigger] is_foreign_key(st.catalog@, c, f) ==> st.catalog@[c].foreign_keys[f].referenced_table != table@,
{
    let mut c: usize = 0;
    while c < st.catalog.tables.len()
        invariant
            c <= st.catalog.tables@.len(),
            forall|p: int, q: int|
                #[trigger] is_foreign_key(st.catalog@, p, q) && p < c ==> st.catalog@[p].foreign_keys[q].referenced_table != table@,
        decreases st.catalog.tables@.len() - c,
    {
        let t = &st.catalog.tables[c];
        assert(st.catalog@[c as int] == t@);
        let mut f: usize = 0;
        while f < t.foreign_keys.len()
            invariant
                c < st.catalog.tables@.len(),
                st.catalog@[c as int] == t@,
                f <= t.foreign_keys@.len(),
                forall|p: int, q: int|
                    #[trigger] is_foreign_key(st.catalog@, p, q) && (p < c || (p == c && q < f))
                        ==> st.catalog@[p].foreign_keys[q].referenced_table != table@,
            decreases t.foreign_keys@.len() - f,
        {
            assert(st.catalog@[c as int].foreign_keys[f as int] == t.foreign_keys@[f as int]@);
            if bytes::same_text(t.foreign_keys[f].referenced_table.as_str(), table) {
                return true;
            }
            f = f + 1;
        }
        c = c + 1;
    }
    false
}

/// Every reference of the staged records finds a record.
fn check_children(st: &State, staged: &Vec<&PreparedTable>) -> (r: Result<(), Error>)
    requires
        st.wf(),
        staged::staged_wf(staged@),
        staged::changes_distinct(model::views(staged@)),
    ensures
        r is Ok ==> all_resolve(st, model::views(staged@)),
        r matches Err(e) ==> exists|i: int, j: int, f: int|
            #[trigger] first_reference_error(st, model::views(staged@), i, j, f, e@),
{
    let ghost all = model::views(staged@);
    let mut i: usize = 0;
    while i < staged.len()
        invariant
            st.wf(),
            staged::staged_wf(staged@),
            all == model::views(staged@),
            staged::changes_distinct(all),
            i <= staged@.len(),
            forall|p: int, q: int, s: int| #[trigger] refers(all, p, q, s) && p < i ==> resolves(st, all, p, q, s),
        decreases staged@.len() - i,
    {
        assert(all[i as int] == staged@[i as int]@);
        let mut j: usize = 0;
        while j < staged[i].changes.len()
            invariant
                st.wf(),
                staged::staged_wf(staged@),
                all == model::views(staged@),
                staged::changes_distinct(all),
                i < staged@.len(),
                all[i as int] == staged@[i as int]@,
                j <= staged@[i as int].changes@.len(),
                forall|p: int, q: int, s: int|
                    #[trigger] refers(all, p, q, s) && (p < i || (p == i && q < j)) ==> resolves(st, all, p, q, s),
            decreases staged@[i as int].changes@.len() - j,
        {
            let mut f: usize = 0;
            while f < staged[i].schema.foreign_keys.len()
                invariant
                    st.wf(),
                    staged::staged_wf(staged@),
                    all == model::views(staged@),
                    staged::changes_distinct(all),
                    i < staged@.len(),
                    all[i as int] == staged@[i as int]@,
                    j < staged@[i as int].changes@.len(),
                    f <= staged@[i as int].schema.foreign_keys@.len(),
                    forall|p: int, q: int, s: int|
                        #[trigger] refers(all, p, q, s) && (p < i || (p == i && (q < j || (q == j && s < f)))) ==> resolves(
                            st,
                            all,
                            p,
                            q,
                            s,
                        ),
                decreases staged@[i as int].schema.foreign_keys@.len() - f,
            {
                match check_reference(st, staged, i, j, f) {
                    Ok(()) => {},
                    Err(e) => {
                        assert(first_reference_error(st, all, i as int, j as int, f as int, e@));
                        return Err(e);
                    },
                }
                f = f + 1;
            }
            j = j + 1;
        }
        i = i + 1;
    }
    Ok(())
}

/// Check that the staged changes keep every foreign key: each reference finds
/// a record in the final state, and no change takes a record away that others
/// still refer to.
#[verifier::rlimit(60)]
pub fn validate_foreign_keys(st: &State, staged: &Vec<&PreparedTable>) -> (r: Result<(), Error>)
    requires
        st.wf(),
        staged::staged_wf(staged@),
        staged::schemas_current(st, model::views(staged@)),
        staged::changes_distinct(model::views(staged@)),
    ensures
        !any_foreign_key(st.catalog@) ==> r is Ok,
        any_foreign_key(st.catalog@) && r is Ok ==> foreign_ok(st, model::views(staged@)),
        r matches Err(e) ==> foreign_error(st, model::views(staged@), e@),
{
    if !catalog_has_foreign_key(st) {
        return Ok(());
    }
    let ghost all = model::views(staged@);
    match check_children(st, staged) {
        Ok(()) => {},
        Err(e) => {
            return Err(e);
        },
    }
    let mut i: usize = 0;
    while i < staged.len()
        invariant
            st.wf(),
            any_foreign_key(st.catalog@),
            all_resolve(st, all),
            staged::staged_wf(staged@),
            all == model::views(staged@),
            staged::schemas_current(st, all),
            staged::changes_distinct(all),
            i <= staged@.len(),
            forall|p: int, q: int, c: int, f: int| #[trigger] breaks(st, all, p, q, c, f) ==> p >= i,
        decreases staged@.len() - i,
    {
        assert(all[i as int] == staged@[i as int]@);
        if is_referenced(st, staged[i].name.as_str()) {
            let mut j: usize = 0;
            while j < staged[i].changes.len()
                invariant
                    st.wf(),
                    any_foreign_key(st.catalog@),
                    all_resolve(st, all),
                    staged::staged_wf(staged@),
                    all == model::views(staged@),
                    staged::schemas_current(st, all),
                    staged::changes_distinct(all),
                    i < staged@.len(),
                    all[i as int] == staged@[i as int]@,
                    j <= staged@[i as int].changes@.len(),
                    forall|p: int, q: int, c: int, f: int|
                        #[trigger] breaks(st, all, p, q, c, f) ==> p > i || (p == i && q >= j),
                decreases staged@[i as int].changes@.len() - j,
            {
                let name = staged[i].name.as_str();
                let id = staged[i].changes[j].id.as_str();
                assert(all[i as int].changes[j as int] == staged@[i as int].changes@[j as int]@);
                assert(staged::is_staged(all, i as int, j as int));
                match st.get_at(name, id, u64::MAX) {
                    Err(e) => {
                        assert(replaced(st, all, i as int, j as int) == Err::<Option<RecordView>, ErrorView>(e@));
                        assert(unbroken_before(st, all, i as int, j as int, 0, 0));
                        return Err(e);
                    },
                    Ok(None) => {
                        assert(forall|c: int, f: int| !#[trigger] breaks(st, all, i as int, j as int, c, f));
                    },
                    Ok(Some(old_rec)) => {
                        match check_withdrawn(st, staged, i, j, &old_rec) {
                            Ok(()) => {},
                            Err(e) => {
                                proof {
                                    let (c, f) = choose|c: int, f: int|
                                        #[trigger] parent_error(st, all, i as int, j as int, c, f, e@) && forall|p: int, q: int|
                                            #[trigger] breaks(st, all, i as int, j as int, p, q) ==> p > c || (p == c && q >= f);
                                    assert(unbroken_before(st, all, i as int, j as int, c, f));
                                }
                                return Err(e);
                            },
                        }
                    },
                }
                j = j + 1;
            }
        }
        i = i + 1;
    }
    Ok(())
}

} // verus!
