//! Indexes that can be made anew from the records: building them, and moving
//! their changes into runs.

use crate::bytes;
use crate::commit_laws;
use crate::cow::{self, CowMap};
use crate::error::{Error, ErrorView};
use crate::model;
use crate::order::{Datum, OrderedKey};
use crate::paged::{self, PagedIndex, Row};
use crate::pairs;
use crate::primary::{self, Run, RunMeta};
use crate::secondary::{
    self, secondary_format_row, secondary_operation, secondary_pair_key, PairChange, SecIdx, SECONDARY_ADD, SECONDARY_DELETE,
};
use crate::segment::{self, read_record_kind};
use crate::staged::{self, value_key};
use crate::state::{SecSlot, State};
use crate::value::{Value, ValueView};
use crate::version::{self, VersionView};
use crate::visit::{self, Group, GroupView};
use std::sync::Arc;
use vstd::prelude::*;
use vstd::string::*;
use vstd::utf8::*;

verus! {

/// The level of the first run of a derived index.
pub const DERIVED_BASE_LEVEL: u8 = 255;

// ---- The values of a column -------------------------------------------------

/// What one record has in a column.
pub struct ColumnValue {
    pub id: String,
    pub value: Value,
}

#[verifier::ext_equal]
pub struct ColumnValueView {
    pub id: Seq<u8>,
    pub value: ValueView,
}

impl View for ColumnValue {
    type V = ColumnValueView;

    open spec fn view(&self) -> ColumnValueView {
        ColumnValueView { id: encode_utf8(self.id@), value: self.value@ }
    }
}

/// A record that a table has now: its newest version is no deletion, and came
/// after the table was made. A table that took over the name of a dropped one
/// may stand over older records.
pub open spec fn is_held(g: GroupView, epoch: u64) -> bool {
    g.versions.len() > 0 && g.versions.last().version > epoch && !g.versions.last().kind.is_tombstone()
}

pub fn group_held(g: &Group, epoch: u64) -> (r: bool)
    ensures
        r == is_held(g@, epoch),
{
    let n: usize = g.versions.len();
    if n == 0 {
        return false;
    }
    assert(g@.versions.last() == g.versions@[n - 1]@);
    g.versions[n - 1].version > epoch && !g.versions[n - 1].is_tombstone()
}

/// The value that the newest version of a record has in a column: none where
/// the record is deleted, or was there before the table, or the column is null
/// or absent.
#[verifier::opaque]
pub open spec fn column_value(st: &State, table: Seq<char>, g: GroupView, column: Seq<char>) -> Result<Option<ValueView>, ErrorView> {
    if !is_held(g, st.epoch_of(table)) {
        Ok(None)
    } else {
        match segment::record_of(st.images(), st.blobs@, g.versions.last().kind) {
            Err(e) => Err(e),
            Ok(rec) => if rec.contains_key(encode_utf8(column)) && !(rec[encode_utf8(column)] is Null) {
                Ok(Some(rec[encode_utf8(column)]))
            } else {
                Ok(None)
            },
        }
    }
}

/// The values of the first `n` records, or what keeps one from being read.
pub open spec fn column_values(st: &State, table: Seq<char>, groups: Seq<GroupView>, column: Seq<char>, n: int) -> Result<Seq<ColumnValueView>, ErrorView>
    decreases n,
{
    if n <= 0 {
        Ok(Seq::empty())
    } else {
        match column_values(st, table, groups, column, n - 1) {
            Err(e) => Err(e),
            Ok(s) => match column_value(st, table, groups[n - 1], column) {
                Err(e) => Err(e),
                Ok(None) => Ok(s),
                Ok(Some(v)) => Ok(s.push(ColumnValueView { id: groups[n - 1].id, value: v })),
            },
        }
    }
}

proof fn lemma_values_fail(st: &State, table: Seq<char>, groups: Seq<GroupView>, column: Seq<char>, n: int)
    requires
        0 <= n <= groups.len(),
        column_values(st, table, groups, column, n) is Err,
    ensures
        column_values(st, table, groups, column, groups.len() as int) == column_values(st, table, groups, column, n),
    decreases groups.len() - n,
{
    if n < groups.len() {
        lemma_values_fail(st, table, groups, column, n + 1);
    }
}

/// All records of a table.
pub open spec fn lists_table(st: &State, table: Seq<char>, groups: Seq<GroupView>) -> bool {
    st.index.is_listing(encode_utf8(table), None, None, groups)
}

/// Why the values of a column cannot be read.
pub open spec fn values_fault(st: &State, table: Seq<char>, column: Seq<char>, e: ErrorView) -> bool {
    ||| exists|key: Seq<u8>, m: Seq<char>| #[trigger] st.index.is_fault(encode_utf8(table), key, m) && e == ErrorView::Corrupt(m)
    ||| exists|groups: Seq<GroupView>|
        #[trigger] lists_table(st, table, groups) && column_values(st, table, groups, column, groups.len() as int) == Err::<
            Seq<ColumnValueView>,
            ErrorView,
        >(e)
}

/// Read what the newest versions of a table's records have in a column, in the
/// order of their ids. Every derived index is built from this.
pub fn canonical_values(st: &State, table: &str, column: &str) -> (r: Result<Vec<ColumnValue>, Error>)
    requires
        st.wf(),
        encode_utf8(table@).len() <= u32::MAX,
    ensures
        match r {
            Ok(values) => exists|groups: Seq<GroupView>|
                #[trigger] lists_table(st, table@, groups) && column_values(st, table@, groups, column@, groups.len() as int) == Ok::<
                    Seq<ColumnValueView>,
                    ErrorView,
                >(model::views(values@)),
            Err(e) => values_fault(st, table@, column@, e@),
        },
{
    let list = match st.index.visit_table(table, None, None) {
        Ok(list) => list,
        Err(e) => {
            return Err(e);
        },
    };
    let ghost groups = model::views(list@);
    assert(visit::text_bytes(None::<&str>) == None::<Seq<u8>>);
    assert(lists_table(st, table@, groups));
    let epoch = st.epoch(table);
    let mut out: Vec<ColumnValue> = Vec::new();
    let mut i: usize = 0;
    assert(model::views(out@) =~= Seq::<ColumnValueView>::empty());
    while i < list.len()
        invariant
            st.wf(),
            epoch == st.epoch_of(table@),
            groups == model::views(list@),
            lists_table(st, table@, groups),
            i <= list@.len(),
            column_values(st, table@, groups, column@, i as int) == Ok::<Seq<ColumnValueView>, ErrorView>(model::views(out@)),
        decreases list@.len() - i,
    {
        proof {
            reveal(column_value);
        }
        let g = &list[i];
        assert(groups[i as int] == g@);
        if group_held(g, epoch) {
            let n: usize = g.versions.len();
            let last = &g.versions[n - 1];
            assert(g@.versions.last() == last@);
            match read_record_kind(&st.blobs, &st.segments, &last.kind) {
                Err(e) => {
                    proof {
                        lemma_values_fail(st, table@, groups, column@, i + 1);
                    }
                    return Err(e);
                },
                Ok(rec) => {
                    match rec.get(column.as_bytes()) {
                        None => {},
                        Some(v) => {
                            if !v.is_null() {
                                let ghost before = model::views(out@);
                                out.push(ColumnValue { id: g.id.clone(), value: v.duplicate() });
                                assert(model::views(out@) =~= before.push(ColumnValueView { id: g@.id, value: v@ }));
                            }
                        },
                    }
                },
            }
        }
        i = i + 1;
    }
    let done: Result<Vec<ColumnValue>, Error> = Ok(out);
    assert(lists_table(st, table@, groups) && column_values(st, table@, groups, column@, groups.len() as int) == Ok::<
        Seq<ColumnValueView>,
        ErrorView,
    >(model::views(done->Ok_0@)));
    done
}

/// Two states with the same records.
pub open spec fn same_records(a: &State, b: &State) -> bool {
    &&& a.index == b.index
    &&& a.catalog@ == b.catalog@
    &&& a.images() == b.images()
    &&& a.blobs@ == b.blobs@
    &&& a.committed_version == b.committed_version
}

pub proof fn lemma_values_same(a: &State, b: &State, table: Seq<char>, groups: Seq<GroupView>, column: Seq<char>, n: int)
    requires
        same_records(a, b),
        a.epoch_of(table) == b.epoch_of(table),
    ensures
        column_values(a, table, groups, column, n) == column_values(b, table, groups, column, n),
    decreases n,
{
    if n > 0 {
        reveal(column_value);
        lemma_values_same(a, b, table, groups, column, n - 1);
    }
}

// ---- Building an equality index ---------------------------------------------

/// The rows of an equality index over values.
pub open spec fn value_rows(s: Seq<ColumnValueView>, version: u64, n: int) -> Seq<(Seq<u8>, Seq<u8>)>
    decreases n,
{
    if n <= 0 {
        seq![(secondary::format_key(), secondary::format_value())]
    } else if staged::indexable(s[n - 1].value) {
        value_rows(s, version, n - 1).push(
            (
                secondary::pair_of(crate::value::encoded(s[n - 1].value), s[n - 1].id),
                secondary::operation_bytes(version, SECONDARY_ADD),
            ),
        )
    } else {
        value_rows(s, version, n - 1)
    }
}

/// The run is the equality index of a column as the records are now.
pub open spec fn is_built(st: &State, table: Seq<char>, column: Seq<char>, version: u64, groups: Seq<GroupView>, run: PagedIndex) -> bool {
    &&& lists_table(st, table, groups)
    &&& column_values(st, table, groups, column, groups.len() as int) matches Ok(values) && run.rows().to_multiset() == value_rows(
        values,
        version,
        values.len() as int,
    ).to_multiset()
    &&& run.wf()
    &&& run.version() == version
}

/// Make the equality index of a column from the records.
pub fn write_secondary_from_canonical(st: &State, table: &str, column: &str, version: u64) -> (r: Result<PagedIndex, Error>)
    requires
        st.wf(),
        encode_utf8(table@).len() <= u32::MAX,
    ensures
        match r {
            Ok(run) => exists|groups: Seq<GroupView>| #[trigger] is_built(st, table@, column@, version, groups, run),
            Err(e) => values_fault(st, table@, column@, e@),
        },
{
    let values = match canonical_values(st, table, column) {
        Ok(values) => values,
        Err(e) => {
            return Err(e);
        },
    };
    let ghost v = model::views(values@);
    let ghost groups = choose|groups: Seq<GroupView>|
        #[trigger] lists_table(st, table@, groups) && column_values(st, table@, groups, column@, groups.len() as int) == Ok::<
            Seq<ColumnValueView>,
            ErrorView,
        >(v);
    let mut rows: Vec<Row> = Vec::new();
    rows.push(secondary_format_row());
    let mut i: usize = 0;
    assert(paged::row_views(rows@) =~= value_rows(v, version, 0));
    while i < values.len()
        invariant
            v == model::views(values@),
            i <= values@.len(),
            paged::row_views(rows@) == value_rows(v, version, i as int),
        decreases values@.len() - i,
    {
        let c = &values[i];
        assert(v[i as int] == c@);
        match value_key(&c.value) {
            None => {},
            Some(key) => {
                let ghost before = paged::row_views(rows@);
                rows.push(
                    Row { key: secondary_pair_key(key.as_slice(), c.id.as_str()), value: secondary_operation(version, SECONDARY_ADD) },
                );
                assert(paged::row_views(rows@) =~= before.push(
                    (
                        secondary::pair_of(crate::value::encoded(c@.value), c@.id),
                        secondary::operation_bytes(version, SECONDARY_ADD),
                    ),
                ));
            },
        }
        i = i + 1;
    }
    let done: Result<PagedIndex, Error> = Ok(PagedIndex::from_rows(paged::sort_rows(&rows), version));
    assert(is_built(st, table@, column@, version, groups, done->Ok_0));
    done
}

proof fn lemma_value_rows(s: Seq<ColumnValueView>, version: u64, n: int, row: (Seq<u8>, Seq<u8>))
    requires
        0 <= n <= s.len(),
    ensures
        paged::holds_row(value_rows(s, version, n), row) <==> row == (secondary::format_key(), secondary::format_value()) || exists|
            k: int,
        | #[trigger] is_value_row(s, version, n, k, row),
    decreases n,
{
    let rows = value_rows(s, version, n);
    if n > 0 {
        lemma_value_rows(s, version, n - 1, row);
        let rest = value_rows(s, version, n - 1);
        if paged::holds_row(rows, row) {
            let i = choose|i: int| 0 <= i < rows.len() && #[trigger] rows[i] == row;
            if i < rest.len() {
                assert(rest[i] == row);
                if row != (secondary::format_key(), secondary::format_value()) {
                    let k = choose|k: int| #[trigger] is_value_row(s, version, n - 1, k, row);
                    assert(is_value_row(s, version, n, k, row));
                }
            } else {
                assert(is_value_row(s, version, n, n - 1, row));
            }
        }
        if paged::holds_row(rest, row) {
            let i = choose|i: int| 0 <= i < rest.len() && #[trigger] rest[i] == row;
            assert(rows[i] == row);
        }
        if exists|k: int| #[trigger] is_value_row(s, version, n, k, row) {
            let k = choose|k: int| #[trigger] is_value_row(s, version, n, k, row);
            if k < n - 1 {
                assert(is_value_row(s, version, n - 1, k, row));
            } else {
                assert(rows[rest.len() as int] == row);
            }
        }
    } else {
        assert(rows[0] == (secondary::format_key(), secondary::format_value()));
    }
}

spec fn is_value_row(s: Seq<ColumnValueView>, version: u64, n: int, k: int, row: (Seq<u8>, Seq<u8>)) -> bool {
    &&& 0 <= k < n
    &&& staged::indexable(s[k].value)
    &&& row == (
        secondary::pair_of(crate::value::encoded(s[k].value), s[k].id),
        secondary::operation_bytes(version, SECONDARY_ADD),
    )
}

proof fn lemma_column_values(st: &State, table: Seq<char>, groups: Seq<GroupView>, column: Seq<char>, n: int)
    requires
        0 <= n <= groups.len(),
        column_values(st, table, groups, column, n) is Ok,
    ensures
        forall|c: ColumnValueView|
            #[trigger] column_values(st, table, groups, column, n)->Ok_0.contains(c) <==> exists|q: int|
                #[trigger] has_value(st, table, groups, column, n, q, c),
    decreases n,
{
    let s = column_values(st, table, groups, column, n)->Ok_0;
    if n > 0 {
        lemma_column_values(st, table, groups, column, n - 1);
        let rest = column_values(st, table, groups, column, n - 1)->Ok_0;
        assert forall|c: ColumnValueView|
            #[trigger] s.contains(c) <==> exists|q: int| #[trigger] has_value(st, table, groups, column, n, q, c) by {
            if s.contains(c) {
                let k = s.index_of(c);
                if k < rest.len() {
                    assert(rest[k] == c);
                    assert(rest.contains(c));
                    let q = choose|q: int| #[trigger] has_value(st, table, groups, column, n - 1, q, c);
                    assert(has_value(st, table, groups, column, n, q, c));
                } else {
                    assert(has_value(st, table, groups, column, n, n - 1, c));
                }
            }
            if exists|q: int| #[trigger] has_value(st, table, groups, column, n, q, c) {
                let q = choose|q: int| #[trigger] has_value(st, table, groups, column, n, q, c);
                if q < n - 1 {
                    assert(has_value(st, table, groups, column, n - 1, q, c));
                    assert(rest.contains(c));
                    assert(s[rest.index_of(c)] == c);
                } else {
                    assert(s[rest.len() as int] == c);
                }
            }
        }
    }
}

spec fn has_value(st: &State, table: Seq<char>, groups: Seq<GroupView>, column: Seq<char>, n: int, q: int, c: ColumnValueView) -> bool {
    &&& 0 <= q < n
    &&& c.id == groups[q].id
    &&& column_value(st, table, groups[q], column) == Ok::<Option<ValueView>, ErrorView>(Some(c.value))
}

/// The last of a record's versions is its newest.
proof fn lemma_last_is_newest(vs: Seq<VersionView>, s: Seq<VersionView>)
    requires
        primary::is_group(vs, s),
        primary::consistent(s),
    ensures
        vs.len() == 0 ==> primary::newest_of(s, u64::MAX) is None,
        vs.len() > 0 ==> primary::newest_of(s, u64::MAX) == Some(vs.last()),
{
    primary::lemma_newest_of(s, u64::MAX);
    if vs.len() > 0 {
        let v = vs.last();
        assert(s.contains(vs[vs.len() - 1]));
        let i = s.index_of(v);
        assert(s[i].version <= u64::MAX);
        let b = primary::newest_of(s, u64::MAX)->0;
        let j = s.index_of(b);
        assert(primary::has_version(vs, s[j].version));
        let k = choose|k: int| 0 <= k < vs.len() && (#[trigger] vs[k]).version == s[j].version;
        if k < vs.len() - 1 {
            assert(vs[k].version < vs[vs.len() - 1].version);
        }
        assert(s[i] == s[j]);
    } else if primary::newest_of(s, u64::MAX) is Some {
        let b = primary::newest_of(s, u64::MAX)->0;
        let j = s.index_of(b);
        assert(primary::has_version(vs, s[j].version));
    }
}

/// What a freshly built index has to be for a slot.
spec fn just_built(st: &State, slot: SecSlot, version: u64, groups: Seq<GroupView>, run: PagedIndex) -> bool {
    &&& st.wf()
    &&& st.versions_ok()
    &&& st.table_view(slot.table@) is Some
    &&& is_built(st, slot.table@, slot.column@, version, groups, run)
    &&& slot.index.overlay@ == Map::<Seq<u8>, PairChange>::empty()
    &&& slot.index.runs@.len() == 1
    &&& slot.index.runs@[0].index.rows() == run.rows()
}

/// The rows of a pair in a run that was just built.
proof fn lemma_built_values(st: &State, slot: SecSlot, version: u64, groups: Seq<GroupView>, run: PagedIndex, key: Seq<u8>, id: Seq<u8>)
    requires
        just_built(st, slot, version, groups, run),
        key.len() <= u32::MAX,
    ensures
        ({
            let pair = secondary::pair_of(key, id);
            let vals = secondary::run_values(slot.index.runs@, pair);
            let values = column_values(st, slot.table@, groups, slot.column@, groups.len() as int)->Ok_0;
            let n = values.len() as int;
            let add = secondary::operation_bytes(version, SECONDARY_ADD);
            &&& slot.index.member(key, id) == secondary::is_add(secondary::newest_op(vals))
            &&& forall|x: Seq<u8>| #[trigger] vals.contains(x) ==> x == add
            &&& vals.contains(add) <==> exists|k: int| #[trigger] is_value_row(values, version, n, k, (pair, add))
        }),
{
    let pair = secondary::pair_of(key, id);
    let rows = run.rows();
    let vals = secondary::run_values(slot.index.runs@, pair);
    let values = column_values(st, slot.table@, groups, slot.column@, groups.len() as int)->Ok_0;
    let n = values.len() as int;
    let made = value_rows(values, version, n);
    let add = secondary::operation_bytes(version, SECONDARY_ADD);
    assert(slot.index.runs@.drop_last() =~= Seq::<Run>::empty());
    assert(secondary::run_values(slot.index.runs@.drop_last(), pair) =~= Seq::<Seq<u8>>::empty());
    assert(slot.index.runs@.last() == slot.index.runs@[0]);
    assert(vals =~= paged::values_of(rows, pair));
    assert(pair != secondary::format_key()) by {
        bytes::lemma_be_len(key.len(), 4);
        assert(pair.len() >= 5);
    }
    assert forall|x: Seq<u8>| #[trigger] vals.contains(x) implies x == add by {
        paged::lemma_values_of(rows, pair, x);
        paged::lemma_sorted_rows(rows, made, (pair, x));
        lemma_value_rows(values, version, n, (pair, x));
        let k = choose|k: int| #[trigger] is_value_row(values, version, n, k, (pair, x));
    }
    paged::lemma_values_of(rows, pair, add);
    paged::lemma_sorted_rows(rows, made, (pair, add));
    lemma_value_rows(values, version, n, (pair, add));
}

/// The newest version of a listed record, and the key that it has.
proof fn lemma_listed_key(st: &State, table: Seq<char>, column: Seq<char>, groups: Seq<GroupView>, q: int, id: Seq<char>)
    requires
        st.wf(),
        st.versions_ok(),
        st.table_view(table) is Some,
        lists_table(st, table, groups),
        0 <= q < groups.len(),
        groups[q].id == encode_utf8(id),
        column_value(st, table, groups[q], column) is Ok,
    ensures
        commit_laws::current_key(st, table, column, id) == (match column_value(st, table, groups[q], column)->Ok_0 {
            Some(v) => if staged::indexable(v) {
                Some(crate::value::encoded(v))
            } else {
                None
            },
            None => None,
        }),
{
    reveal(column_value);
    let t = encode_utf8(table);
    let g = groups[q];
    assert(st.index.is_record(t, None, groups[q]));
    let s = st.index.entries(version::key_of(t, g.id))->Ok_0;
    assert(primary::consistent(s));
    lemma_last_is_newest(g.versions, s);
    assert(st.versions(table, encode_utf8(id)) == Ok::<Seq<VersionView>, Seq<char>>(s));
    if g.versions.len() > 0 {
        assert(g.versions.last().version > st.epoch_of(table) ==> st.latest(table, encode_utf8(id)) == Ok::<Option<VersionView>, Seq<char>>(Some(g.versions.last())));
    }
}

proof fn lemma_member_has_key(st: &State, slot: SecSlot, version: u64, groups: Seq<GroupView>, run: PagedIndex, key: Seq<u8>, id: Seq<char>)
    requires
        just_built(st, slot, version, groups, run),
        key.len() <= u32::MAX,
        slot.index.member(key, encode_utf8(id)),
    ensures
        commit_laws::current_key(st, slot.table@, slot.column@, id) == Some(key),
{
    let column = slot.column@;
    let pair = secondary::pair_of(key, encode_utf8(id));
    let vals = secondary::run_values(slot.index.runs@, pair);
    let values = column_values(st, slot.table@, groups, column, groups.len() as int)->Ok_0;
    let add = secondary::operation_bytes(version, SECONDARY_ADD);
    lemma_built_values(st, slot, version, groups, run, key, encode_utf8(id));
    secondary::lemma_newest_op(vals);
    let op = secondary::newest_op(vals)->0;
    let i = choose|i: int| 0 <= i < vals.len() && secondary::operation_of(#[trigger] vals[i]) == Ok::<(u64, u8), Seq<char>>(op);
    assert(vals.contains(vals[i]));
    let k = choose|k: int| #[trigger] is_value_row(values, version, values.len() as int, k, (pair, add));
    let c = values[k];
    secondary::lemma_pair_injective(crate::value::encoded(c.value), c.id, key, encode_utf8(id));
    assert(values.contains(c));
    lemma_column_values(st, slot.table@, groups, column, groups.len() as int);
    let q = choose|q: int| #[trigger] has_value(st, slot.table@, groups, column, groups.len() as int, q, c);
    lemma_listed_key(st, slot.table@, column, groups, q, id);
}

proof fn lemma_key_is_member(st: &State, slot: SecSlot, version: u64, groups: Seq<GroupView>, run: PagedIndex, key: Seq<u8>, id: Seq<char>)
    requires
        just_built(st, slot, version, groups, run),
        key.len() <= u32::MAX,
        commit_laws::current_key(st, slot.table@, slot.column@, id) == Some(key),
    ensures
        slot.index.member(key, encode_utf8(id)),
{
    let table = slot.table@;
    let column = slot.column@;
    let t = encode_utf8(table);
    let pair = secondary::pair_of(key, encode_utf8(id));
    let vals = secondary::run_values(slot.index.runs@, pair);
    let values = column_values(st, table, groups, column, groups.len() as int)->Ok_0;
    let n = values.len() as int;
    let add = secondary::operation_bytes(version, SECONDARY_ADD);
    lemma_built_values(st, slot, version, groups, run, key, encode_utf8(id));
    let s = st.versions(table, encode_utf8(id))->Ok_0;
    primary::lemma_newest_of(s, u64::MAX);
    if !st.index.has_record(t, encode_utf8(id)) {
        crate::compact_laws::lemma_unheld(st.index.runs@, version::key_of(t, encode_utf8(id)));
        assert(s =~= Seq::<VersionView>::empty());
    }
    assert(visit::lists_id(groups, encode_utf8(id)));
    let q = choose|q: int| 0 <= q < groups.len() && (#[trigger] groups[q]).id == encode_utf8(id);
    lemma_readable(st, table, groups, column, groups.len() as int, q);
    lemma_listed_key(st, table, column, groups, q, id);
    let v = column_value(st, table, groups[q], column)->Ok_0->0;
    let c = ColumnValueView { id: encode_utf8(id), value: v };
    assert(has_value(st, table, groups, column, groups.len() as int, q, c));
    lemma_column_values(st, table, groups, column, groups.len() as int);
    assert(values.contains(c));
    let k = values.index_of(c);
    assert(is_value_row(values, version, n, k, (pair, add)));
    assert(vals.contains(add));
    secondary::lemma_newest_op(vals);
    secondary::lemma_operation_round_trip(version, SECONDARY_ADD);
    let i = vals.index_of(add);
    assert(secondary::operation_of(vals[i]) is Ok);
    let op = secondary::newest_op(vals)->0;
    let j = choose|j: int| 0 <= j < vals.len() && secondary::operation_of(#[trigger] vals[j]) == Ok::<(u64, u8), Seq<char>>(op);
    assert(vals.contains(vals[j]));
}

proof fn lemma_readable(st: &State, table: Seq<char>, groups: Seq<GroupView>, column: Seq<char>, n: int, q: int)
    requires
        0 <= q < n <= groups.len(),
        column_values(st, table, groups, column, n) is Ok,
    ensures
        column_value(st, table, groups[q], column) is Ok,
    decreases n,
{
    if q < n - 1 {
        lemma_readable(st, table, groups, column, n - 1, q);
    }
}

/// An equality index that was just built is in step with the records.
pub proof fn lemma_built_index_agrees(st: &State, slot: SecSlot, version: u64, groups: Seq<GroupView>, run: PagedIndex)
    requires
        st.wf(),
        st.versions_ok(),
        st.table_view(slot.table@) is Some,
        is_built(st, slot.table@, slot.column@, version, groups, run),
        slot.index.overlay@ == Map::<Seq<u8>, PairChange>::empty(),
        slot.index.runs@.len() == 1,
        slot.index.runs@[0].index.rows() == run.rows(),
    ensures
        commit_laws::index_agrees(st, slot),
{
    assert forall|id: Seq<char>, key: Seq<u8>| key.len() <= u32::MAX implies (#[trigger] slot.index.member(key, encode_utf8(id))
        <==> commit_laws::current_key(st, slot.table@, slot.column@, id) == Some(key)) by {
        if slot.index.member(key, encode_utf8(id)) {
            lemma_member_has_key(st, slot, version, groups, run, key, id);
        }
        if commit_laws::current_key(st, slot.table@, slot.column@, id) == Some(key) {
            lemma_key_is_member(st, slot, version, groups, run, key, id);
        }
    }
}

// ---- Moving changes into a run ----------------------------------------------

pub open spec fn change_op(c: PairChange) -> u8 {
    match c {
        PairChange::Added => SECONDARY_ADD,
        PairChange::Removed => SECONDARY_DELETE,
    }
}

/// The rows of a run that holds changes.
pub open spec fn change_rows(s: Seq<(Seq<u8>, PairChange)>, version: u64, n: int) -> Seq<(Seq<u8>, Seq<u8>)>
    decreases n,
{
    if n <= 0 {
        seq![(secondary::format_key(), secondary::format_value())]
    } else {
        change_rows(s, version, n - 1).push((s[n - 1].0, secondary::operation_bytes(version, change_op(s[n - 1].1))))
    }
}

/// A run of the changes of an equality index.
pub open spec fn holds_changes(changes: CowMap<Vec<u8>, PairChange>, version: u64, run: PagedIndex) -> bool {
    &&& run.wf()
    &&& run.version() == version
    &&& run.rows().to_multiset() == change_rows(changes.pairs(), version, changes.pairs().len() as int).to_multiset()
}

/// Make the run of changes.
pub fn write_changes(changes: &CowMap<Vec<u8>, PairChange>, version: u64) -> (r: PagedIndex)
    requires
        changes.wf(),
    ensures
        holds_changes(*changes, version, r),
{
    let ghost s = changes.pairs();
    let list = changes.iter();
    let mut rows: Vec<Row> = Vec::new();
    rows.push(secondary_format_row());
    let mut i: usize = 0;
    assert(paged::row_views(rows@) =~= change_rows(s, version, 0));
    while i < list.len()
        invariant
            cow::entry_pairs(list@) == s,
            i <= list@.len(),
            paged::row_views(rows@) == change_rows(s, version, i as int),
        decreases list@.len() - i,
    {
        let (pair, change) = list[i];
        assert(s[i as int] == (pair@, *change)) by {
            assert(cow::entry_pairs(list@)[i as int] == (pair.rank(), change@));
        }
        let op: u8 = match change {
            PairChange::Added => SECONDARY_ADD,
            PairChange::Removed => SECONDARY_DELETE,
        };
        let ghost before = paged::row_views(rows@);
        rows.push(Row { key: bytes::copy_of(pair.as_slice()), value: secondary_operation(version, op) });
        assert(paged::row_views(rows@) =~= before.push((pair@, secondary::operation_bytes(version, op))));
        i = i + 1;
    }
    PagedIndex::from_rows(paged::sort_rows(&rows), version)
}

spec fn is_change_row(s: Seq<(Seq<u8>, PairChange)>, version: u64, n: int, k: int, row: (Seq<u8>, Seq<u8>)) -> bool {
    0 <= k < n && row == (s[k].0, secondary::operation_bytes(version, change_op(s[k].1)))
}

proof fn lemma_change_rows(s: Seq<(Seq<u8>, PairChange)>, version: u64, n: int, row: (Seq<u8>, Seq<u8>))
    requires
        0 <= n <= s.len(),
    ensures
        paged::holds_row(change_rows(s, version, n), row) <==> row == (secondary::format_key(), secondary::format_value()) || exists|
            k: int,
        | #[trigger] is_change_row(s, version, n, k, row),
    decreases n,
{
    let rows = change_rows(s, version, n);
    if n > 0 {
        lemma_change_rows(s, version, n - 1, row);
        let rest = change_rows(s, version, n - 1);
        if paged::holds_row(rows, row) {
            let i = choose|i: int| 0 <= i < rows.len() && #[trigger] rows[i] == row;
            if i < rest.len() {
                assert(rest[i] == row);
                if row != (secondary::format_key(), secondary::format_value()) {
                    let k = choose|k: int| #[trigger] is_change_row(s, version, n - 1, k, row);
                    assert(is_change_row(s, version, n, k, row));
                }
            } else {
                assert(is_change_row(s, version, n, n - 1, row));
            }
        }
        if paged::holds_row(rest, row) {
            let i = choose|i: int| 0 <= i < rest.len() && #[trigger] rest[i] == row;
            assert(rows[i] == row);
        }
        if exists|k: int| #[trigger] is_change_row(s, version, n, k, row) {
            let k = choose|k: int| #[trigger] is_change_row(s, version, n, k, row);
            if k < n - 1 {
                assert(is_change_row(s, version, n - 1, k, row));
            } else {
                assert(rows[rest.len() as int] == row);
            }
        }
    } else {
        assert(rows[0] == (secondary::format_key(), secondary::format_value()));
    }
}

/// What a run of changes says of a pair.
proof fn lemma_run_of_changes(changes: CowMap<Vec<u8>, PairChange>, version: u64, run: PagedIndex, pair: Seq<u8>)
    requires
        changes.wf(),
        holds_changes(changes, version, run),
        pair.len() > 1,
    ensures
        ({
            let vals = paged::values_of(run.rows(), pair);
            &&& forall|x: Seq<u8>| #[trigger] vals.contains(x) ==> changes@.contains_key(pair) && x == secondary::operation_bytes(
                version,
                change_op(changes@[pair]),
            )
            &&& changes@.contains_key(pair) ==> vals.contains(secondary::operation_bytes(version, change_op(changes@[pair])))
        }),
{
    let s = changes.pairs();
    let n = s.len() as int;
    let rows = run.rows();
    let made = change_rows(s, version, n);
    let vals = paged::values_of(rows, pair);
    changes.lemma_wf();
    assert forall|x: Seq<u8>| #[trigger] vals.contains(x) implies changes@.contains_key(pair) && x == secondary::operation_bytes(
        version,
        change_op(changes@[pair]),
    ) by {
        paged::lemma_values_of(rows, pair, x);
        paged::lemma_sorted_rows(rows, made, (pair, x));
        lemma_change_rows(s, version, n, (pair, x));
        assert(secondary::format_key().len() == 1);
        let k = choose|k: int| #[trigger] is_change_row(s, version, n, k, (pair, x));
        pairs::lemma_to_map_at(s, k);
    }
    if changes@.contains_key(pair) {
        assert(pairs::has_key(s, pair));
        let k = pairs::index_of(s, pair);
        pairs::lemma_to_map_at(s, k);
        let x = secondary::operation_bytes(version, change_op(changes@[pair]));
        assert(is_change_row(s, version, n, k, (pair, x)));
        lemma_change_rows(s, version, n, (pair, x));
        paged::lemma_sorted_rows(rows, made, (pair, x));
        paged::lemma_values_of(rows, pair, x);
    }
}

/// Every operation in the runs is older than `version`.
pub open spec fn ops_before(runs: Seq<Run>, version: u64) -> bool {
    forall|pair: Seq<u8>, i: int|
        0 <= i < secondary::run_values(runs, pair).len() ==> (secondary::operation_of(
            #[trigger] secondary::run_values(runs, pair)[i],
        ) matches Ok(op) ==> op.0 < version)
}

/// What a new run changes for a pair: its own operation counts, where it has
/// one.
pub proof fn lemma_pair_after_run(before: &SecIdx, after: &SecIdx, changes: CowMap<Vec<u8>, PairChange>, version: u64, run: PagedIndex, pair: Seq<u8>)
    requires
        changes.wf(),
        holds_changes(changes, version, run),
        pair.len() > 1,
        after.runs@.len() == before.runs@.len() + 1,
        after.runs@.drop_last() == before.runs@,
        after.runs@.last().index.rows() == run.rows(),
        ops_before(before.runs@, version),
    ensures
        secondary::is_add(secondary::newest_op(secondary::run_values(after.runs@, pair))) == (if changes@.contains_key(pair) {
            changes@[pair] == PairChange::Added
        } else {
            secondary::is_add(secondary::newest_op(secondary::run_values(before.runs@, pair)))
        }),
{
    let a = secondary::run_values(before.runs@, pair);
    let b = paged::values_of(run.rows(), pair);
    let c = secondary::run_values(after.runs@, pair);
    assert(c == a + b);
    lemma_run_of_changes(changes, version, run, pair);
    if changes@.contains_key(pair) {
        let op = change_op(changes@[pair]);
        let x = secondary::operation_bytes(version, op);
        secondary::lemma_operation_round_trip(version, op);
        secondary::lemma_newest_op(c);
        let k = b.index_of(x);
        assert(c[a.len() + k] == x);
        assert(secondary::operation_of(c[a.len() + k]) is Ok);
        let n = secondary::newest_op(c)->0;
        let j = choose|j: int| 0 <= j < c.len() && secondary::operation_of(#[trigger] c[j]) == Ok::<(u64, u8), Seq<char>>(n);
        if j < a.len() {
            assert(c[j] == a[j]);
            assert(secondary::operation_of(secondary::run_values(before.runs@, pair)[j]) is Ok);
            assert(n.0 < version);
            assert(secondary::op_after((version, op), n));
        } else {
            assert(c[j] == b[j - a.len()]);
            assert(b.contains(b[j - a.len()]));
            assert(n == (version, op));
        }
    } else {
        if b.len() > 0 {
            assert(b.contains(b[0]));
        }
        assert(c =~= a);
    }
}

impl SecIdx {
    /// Take over a run that holds all changes.
    pub fn adopt_changes(&mut self, run: PagedIndex, meta: RunMeta)
        requires
            old(self).wf(),
            run.wf(),
        ensures
            final(self).wf(),
            final(self).generation == meta.generation,
            final(self).overlay@ == Map::<Seq<u8>, PairChange>::empty(),
            final(self).runs@.len() == old(self).runs@.len() + 1,
            final(self).runs@.drop_last() == old(self).runs@,
            final(self).runs@.last().meta == meta,
            final(self).runs@.last().index.rows() == run.rows(),
    {
        let ghost before = self.runs@;
        self.generation = meta.generation;
        self.runs.push(Run { meta, index: Arc::new(run) });
        self.overlay.clear();
        proof {
            assert(self.runs@.drop_last() =~= before);
            assert forall|i: int| 0 <= i < self.runs@.len() implies (#[trigger] self.runs@[i]).index.wf() by {
                if i < before.len() {
                    assert(self.runs@[i] == before[i]);
                }
            }
        }
    }
}

/// Moving all changes into a run changes no answer of the index.
pub proof fn lemma_consolidation_keeps_pairs(before: &SecIdx, after: &SecIdx, version: u64, run: PagedIndex, pair: Seq<u8>)
    requires
        before.wf(),
        holds_changes(before.overlay, version, run),
        ops_before(before.runs@, version),
        after.overlay@ == Map::<Seq<u8>, PairChange>::empty(),
        after.runs@.len() == before.runs@.len() + 1,
        after.runs@.drop_last() == before.runs@,
        after.runs@.last().index.rows() == run.rows(),
        pair.len() > 1,
    ensures
        after.has_pair(pair) == before.has_pair(pair),
{
    lemma_pair_after_run(before, after, before.overlay, version, run, pair);
}

/// What to do with one equality index when derived indexes are consolidated.
pub enum Consolidation {
    /// There is nothing to write; the index counts for the version as it is.
    Current,
    /// Write this run at this level, then take it over.
    Write { run: PagedIndex, level: u8 },
}

/// Decide it for one index.
pub fn consolidate_index(index: &mut SecIdx, version: u64) -> (r: Consolidation)
    requires
        old(index).wf(),
    ensures
        match r {
            Consolidation::Current => {
                &&& old(index).overlay.pairs().len() == 0
                &&& *final(index) == (SecIdx { generation: version, ..*old(index) })
            },
            Consolidation::Write { run, level } => {
                &&& old(index).overlay.pairs().len() > 0
                &&& *final(index) == *old(index)
                &&& holds_changes(old(index).overlay, version, run)
                &&& level == (if old(index).runs@.len() == 0 {
                    DERIVED_BASE_LEVEL
                } else {
                    0
                })
            },
        },
{
    if index.overlay.is_empty() {
        index.generation = version;
        return Consolidation::Current;
    }
    let run = write_changes(&index.overlay, version);
    let level: u8 = if index.runs.len() == 0 {
        DERIVED_BASE_LEVEL
    } else {
        0
    };
    Consolidation::Write { run, level }
}

} // verus!
