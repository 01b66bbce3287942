//! Loading records that come in the order of their ids straight into a segment.

use crate::bytes::{self, Place};
use crate::checkpoint::copy_metas;
use crate::checkpoint_laws;
use crate::error::{invalid, table_not_found, Error, ErrorView};
use crate::levels::{self, primary_generation, SegmentMeta};
use crate::model;
use crate::paged::{self, PagedIndex};
use crate::payload;
use crate::prepare::has_stored_form;
use crate::primary::{self, RunMeta, RunMetaView};
use crate::record::{self, encode_record_ordered, normalize_record, Record, RecordView};
use crate::schema::{TableSchema, TableView, ID_COLUMN};
use crate::segment::{self, SegmentView};
use crate::segwrite::{self, make_run_rows, same_order, write_items, ItemView, SegItem};
use crate::state::{self, State};
use crate::value::{BlobRef, Value, ValueView};
use crate::version::{self, primary_key, VersionView};
use std::sync::Arc;
use vstd::prelude::*;
use vstd::string::*;
use vstd::utf8::*;

verus! {

/// A record to load. `external` holds, per column, the reference of a blob that
/// was written out of line.
pub struct BulkRow {
    pub record: Record,
    pub external: Vec<Option<BlobRef>>,
}

/// The id that a record carries.
pub open spec fn given_id(rec: RecordView) -> Result<Seq<char>, ErrorView> {
    if !rec.contains_key(record::id_key()) {
        Err(ErrorView::InvalidArgument("bulk_insert_sorted requires an explicit id"@))
    } else {
        match rec[record::id_key()] {
            ValueView::Text(id) => if id.len() == 0 {
                Err(ErrorView::InvalidArgument("id must not be empty"@))
            } else {
                Ok(id)
            },
            _ => Err(ErrorView::SchemaViolation("bulk_insert_sorted requires a text id"@)),
        }
    }
}

pub open spec fn follows(prev: Option<Seq<char>>, id: Seq<char>) -> bool {
    prev matches Some(p) ==> bytes::lex_lt(encode_utf8(p), encode_utf8(id))
}

pub open spec fn order_error(prev: Seq<char>, id: Seq<char>) -> ErrorView {
    ErrorView::InvalidArgument(
        "bulk_insert_sorted ids must be strictly increasing and above existing ids: '"@ + id + "' follows '"@ + prev
            + "'; no rows were published"@,
    )
}

/// The record without its id.
pub open spec fn body(rec: RecordView) -> RecordView {
    rec.remove(record::id_key())
}

/// What is wrong with the columns of a record.
pub open spec fn columns_fault(t: TableView, rec: RecordView, e: ErrorView) -> bool {
    if !record::names_known(t.columns, body(rec)) {
        exists|name: Seq<char>|
            record::first_unknown(t.columns, body(rec), #[trigger] encode_utf8(name)) && e == record::unknown_column(name)
    } else {
        record::with_columns(t.columns, body(rec)) == Err::<RecordView, ErrorView>(e)
    }
}

pub open spec fn complete(t: TableView, rec: RecordView) -> RecordView {
    record::with_columns(t.columns, body(rec))->Ok_0
}

pub open spec fn row_payload(t: TableView, row: BulkRow) -> Seq<u8> {
    payload::payload_bytes(
        record::ordered_fields(t.columns, complete(t, row.record@), record::external_views(row.external@)),
    )
}

pub open spec fn row_stored(t: TableView, row: BulkRow) -> bool {
    &&& record::record_fits(t.columns, complete(t, row.record@), record::external_views(row.external@))
    &&& row_payload(t, row).len() <= u32::MAX
}

/// A record can be loaded after `prev`, and this is what is written.
pub open spec fn row_ready(t: TableView, table: Seq<char>, version: u64, prev: Option<Seq<char>>, row: BulkRow, m: ItemView) -> bool {
    &&& given_id(row.record@) is Ok
    &&& follows(prev, given_id(row.record@)->Ok_0)
    &&& record::names_known(t.columns, body(row.record@))
    &&& record::with_columns(t.columns, body(row.record@)) is Ok
    &&& row_stored(t, row)
    &&& m == (ItemView {
        key: version::key_of(encode_utf8(table), encode_utf8(given_id(row.record@)->Ok_0)),
        table,
        id: given_id(row.record@)->Ok_0,
        version,
        payload: Some(row_payload(t, row)),
    })
}

/// Why a record cannot be loaded after `prev`.
pub open spec fn row_fault(t: TableView, prev: Option<Seq<char>>, row: BulkRow, e: ErrorView) -> bool {
    match given_id(row.record@) {
        Err(x) => e == x,
        Ok(id) => if !follows(prev, id) {
            e == order_error(prev->0, id)
        } else if !record::names_known(t.columns, body(row.record@)) || record::with_columns(t.columns, body(row.record@)) is Err {
            columns_fault(t, row.record@, e)
        } else {
            !row_stored(t, row) && e == ErrorView::InvalidArgument("bulk record payload exceeds 4 GiB"@)
        },
    }
}

/// The id that stands before the record at `i`.
pub open spec fn prev_at(high: Option<Seq<char>>, items: Seq<ItemView>, i: int) -> Option<Seq<char>> {
    if i <= 0 {
        high
    } else {
        Some(items[i - 1].id)
    }
}

/// The first `n` records can be loaded, as the items say.
#[verifier::opaque]
pub open spec fn rows_ready(
    t: TableView,
    table: Seq<char>,
    version: u64,
    high: Option<Seq<char>>,
    rows: Seq<BulkRow>,
    items: Seq<ItemView>,
    n: int,
) -> bool {
    forall|i: int| 0 <= i < n ==> row_ready(t, table, version, prev_at(high, items, i), rows[i], #[trigger] items[i])
}

fn id_of(rec: &Record) -> (r: Result<String, Error>)
    requires
        rec.wf(),
    ensures
        match given_id(rec@) {
            Ok(id) => r is Ok && r->Ok_0@ == id,
            Err(e) => r is Err && r->Err_0@ == e,
        },
{
    let name = ID_COLUMN;
    match rec.get(name.as_bytes()) {
        None => Err(invalid("bulk_insert_sorted requires an explicit id")),
        Some(Value::Text(id)) => {
            if bytes::byte_len(id.as_str()) == 0 {
                proof {
                    bytes::lemma_empty_text(id@);
                }
                Err(invalid("id must not be empty"))
            } else {
                proof {
                    bytes::lemma_empty_text(id@);
                }
                Ok(id.clone())
            }
        },
        Some(_) => Err(Error::SchemaViolation("bulk_insert_sorted requires a text id".to_owned())),
    }
}

fn stands_after(prev: &Option<String>, id: &str) -> (r: bool)
    ensures
        r == follows(model::text_view(*prev), id@),
{
    match prev {
        None => true,
        Some(p) => {
            proof {
                bytes::lemma_lex_trichotomy(encode_utf8(p@), encode_utf8(id@));
            }
            match bytes::place(p.as_str().as_bytes(), id.as_bytes()) {
                Place::Before => true,
                _ => false,
            }
        },
    }
}

fn ready_row(schema: &TableSchema, table: &str, version: u64, prev: &Option<String>, row: BulkRow) -> (r: Result<SegItem, Error>)
    requires
        row.record.wf(),
        state::schema_fits(schema@),
        row.external@.len() == schema@.columns.len(),
        encode_utf8(table@).len() <= u32::MAX,
    ensures
        match r {
            Ok(m) => row_ready(schema@, table@, version, model::text_view(*prev), row, m@),
            Err(e) => row_fault(schema@, model::text_view(*prev), row, e@),
        },
{
    let ghost whole = row;
    let id = match id_of(&row.record) {
        Ok(id) => id,
        Err(e) => {
            return Err(e);
        },
    };
    if !stands_after(prev, id.as_str()) {
        let before: &str = match prev {
            Some(p) => p.as_str(),
            None => "",
        };
        return Err(
            Error::InvalidArgument(
                "bulk_insert_sorted ids must be strictly increasing and above existing ids: '".to_owned().concat(
                    id.as_str(),
                ).concat("' follows '").concat(before).concat("'; no rows were published"),
            ),
        );
    }
    let BulkRow { record, external } = row;
    let rec = match normalize_record(schema, record) {
        Ok(rec) => rec,
        Err(e) => {
            return Err(e);
        },
    };
    if !has_stored_form(schema, &rec, &external) {
        return Err(invalid("bulk record payload exceeds 4 GiB"));
    }
    let data = encode_record_ordered(schema, &rec, &external);
    if data.len() > u32::MAX as usize {
        return Err(invalid("bulk record payload exceeds 4 GiB"));
    }
    Ok(
        SegItem {
            key: primary_key(table, id.as_str()),
            table: table.to_owned(),
            id,
            version,
            payload: Some(Arc::new(data)),
        },
    )
}

/// What the loaded items know of each other.
proof fn lemma_ready_prefix(
    t: TableView,
    table: Seq<char>,
    version: u64,
    high: Option<Seq<char>>,
    rows: Seq<BulkRow>,
    a: Seq<ItemView>,
    b: Seq<ItemView>,
    n: int,
)
    requires
        n == a.len() <= b.len(),
        forall|i: int| 0 <= i < n ==> a[i] == #[trigger] b[i],
        rows_ready(t, table, version, high, rows, a, n),
    ensures
        rows_ready(t, table, version, high, rows, b, n),
{
    reveal(rows_ready);
    assert forall|i: int| 0 <= i < n implies row_ready(t, table, version, prev_at(high, b, i), rows[i], #[trigger] b[i]) by {
        assert(row_ready(t, table, version, prev_at(high, a, i), rows[i], a[i]));
        if i > 0 {
            assert(a[i - 1] == b[i - 1]);
        }
    }
}

/// Some record cannot be loaded; those before it could.
pub open spec fn load_fault(
    t: TableView,
    table: Seq<char>,
    version: u64,
    high: Option<Seq<char>>,
    rows: Seq<BulkRow>,
    items: Seq<ItemView>,
    e: ErrorView,
) -> bool {
    let n = items.len() as int;
    &&& n < rows.len()
    &&& rows_ready(t, table, version, high, rows, items, n)
    &&& row_fault(t, prev_at(high, items, n), rows[n], e)
}

fn ready_rows(schema: &TableSchema, table: &str, version: u64, high: Option<String>, rows: Vec<BulkRow>) -> (r: Result<Vec<SegItem>, Error>)
    requires
        state::schema_fits(schema@),
        encode_utf8(table@).len() <= u32::MAX,
        forall|i: int| 0 <= i < rows@.len() ==> (#[trigger] rows@[i]).record.wf() && rows@[i].external@.len()
            == schema@.columns.len(),
    ensures
        match r {
            Ok(items) => items@.len() == rows@.len() && rows_ready(
                schema@,
                table@,
                version,
                model::text_view(high),
                rows@,
                model::views(items@),
                rows@.len() as int,
            ),
            Err(e) => exists|items: Seq<ItemView>|
                #[trigger] load_fault(schema@, table@, version, model::text_view(high), rows@, items, e@),
        },
{
    let ghost from = rows@;
    let ghost first = model::text_view(high);
    let ghost t = schema@;
    let mut waiting: Vec<BulkRow> = Vec::new();
    let mut left = rows;
    while left.len() > 0
        invariant
            left@.len() + waiting@.len() == from.len(),
            left@ == from.subrange(0, left@.len() as int),
            forall|k: int| 0 <= k < waiting@.len() ==> #[trigger] waiting@[k] == from[from.len() - 1 - k],
        decreases left@.len(),
    {
        let n: usize = left.len();
        match left.pop() {
            Some(row) => {
                waiting.push(row);
            },
            None => {},
        }
        assert(left@ =~= from.subrange(0, n - 1));
    }
    let mut out: Vec<SegItem> = Vec::new();
    let mut prev: Option<String> = high;
    assert(model::views(out@) =~= Seq::<ItemView>::empty());
    assert(rows_ready(t, table@, version, first, from, model::views(out@), 0)) by {
        reveal(rows_ready);
    }
    while waiting.len() > 0
        invariant
            t == schema@,
            state::schema_fits(schema@),
            encode_utf8(table@).len() <= u32::MAX,
            forall|i: int| 0 <= i < from.len() ==> (#[trigger] from[i]).record.wf() && from[i].external@.len() == schema@.columns.len(),
            waiting@.len() + out@.len() == from.len(),
            forall|k: int| 0 <= k < waiting@.len() ==> #[trigger] waiting@[k] == from[from.len() - 1 - k],
            rows_ready(t, table@, version, first, from, model::views(out@), out@.len() as int),
            model::text_view(prev) == prev_at(first, model::views(out@), out@.len() as int),
            from == rows@,
            first == model::text_view(high),
        decreases waiting@.len(),
    {
        let ghost done = model::views(out@);
        let ghost n = out@.len() as int;
        match waiting.pop() {
            None => {},
            Some(row) => {
                assert(row == from[n]);
                match ready_row(schema, table, version, &prev, row) {
                    Err(e) => {
                        assert(load_fault(t, table@, version, first, from, done, e@));
                        return Err(e);
                    },
                    Ok(m) => {
                        prev = Some(m.id.clone());
                        let ghost mv = m@;
                        out.push(m);
                        proof {
                            let now = model::views(out@);
                            assert(now =~= done.push(mv));
                            reveal(rows_ready);
                            lemma_ready_prefix(t, table@, version, first, from, done, now, n);
                            assert forall|i: int| 0 <= i < n + 1 implies row_ready(
                                t,
                                table@,
                                version,
                                prev_at(first, now, i),
                                from[i],
                                #[trigger] now[i],
                            ) by {
                                if i == n && n > 0 {
                                    assert(now[n - 1] == done[n - 1]);
                                }
                            }
                        }
                    },
                }
            },
        }
    }
    Ok(out)
}

// ---- The new segment --------------------------------------------------------

/// A load that waits to be taken over.
pub struct BulkLoad {
    pub table: String,
    /// The commit that the whole load is.
    pub version: u64,
    pub rows: usize,
    pub segment: u32,
    pub image: Arc<Vec<u8>>,
    pub run: PagedIndex,
    pub generation: u64,
    pub metas: Vec<SegmentMeta>,
    pub last_id: String,
}

/// The greatest id of a table.
pub open spec fn high_of(st: &State, table: Seq<char>) -> Option<Seq<char>> {
    let key = encode_utf8(table);
    if st.high_ids@.contains_key(key) {
        Some(st.high_ids@[key])
    } else {
        None
    }
}

pub open spec fn next_version(st: &State) -> u64 {
    if st.committed_version == u64::MAX {
        u64::MAX
    } else {
        (st.committed_version + 1) as u64
    }
}

pub open spec fn is_load(st: &State, table: Seq<char>, rows: Seq<BulkRow>, items: Seq<ItemView>, locs: Seq<u64>, r: BulkLoad) -> bool {
    let n = items.len() as int;
    &&& n == rows.len() && n > 0
    &&& r.table@ == table
    &&& r.version == next_version(st)
    &&& r.rows == n
    &&& r.segment == st.next_segment_id
    &&& rows_ready(st.table_view(table)->0, table, r.version, high_of(st, table), rows, items, n)
    &&& r.image@ == segwrite::image_bytes(items, segwrite::span(0, n), n)
    &&& segwrite::located(items, locs, r.image@)
    &&& forall|k: int| 0 <= k < n ==> segwrite::item_fits(#[trigger] items[k])
    &&& r.run.wf()
    &&& r.run.version() == r.generation
    &&& r.run.rows() == segwrite::run_rows(items, locs, r.segment, st.catalog@, n)
    &&& r.metas@ == st.metas@.push(SegmentMeta { id: r.segment, len: r.image@.len() as u64 })
    &&& r.generation == levels::hash_of(levels::generation_bytes(r.version, r.metas@, st.catalog@))
    &&& r.last_id@ == items.last().id
}

/// The table has an index that a load would leave behind.
pub open spec fn has_derived(t: TableView) -> bool {
    t.indexes.len() > 0 || t.text_indexes.len() > 0 || t.vector_indexes.len() > 0
}

pub open spec fn derived_error(table: Seq<char>) -> ErrorView {
    ErrorView::InvalidArgument(
        "bulk_insert_sorted requires "@ + table + " to have no derived indexes; create them after the load"@,
    )
}

/// Why records cannot be loaded.
pub open spec fn bulk_error(st: &State, table: Seq<char>, rows: Seq<BulkRow>, e: ErrorView) -> bool {
    match st.table_view(table) {
        None => e == ErrorView::TableNotFound(table),
        Some(t) => if has_derived(t) {
            e == derived_error(table)
        } else {
            ||| exists|items: Seq<ItemView>|
                #[trigger] load_fault(t, table, next_version(st), high_of(st, table), rows, items, e)
            ||| exists|items: Seq<ItemView>, k: int|
                rows_ready(t, table, next_version(st), high_of(st, table), rows, items, rows.len() as int) && items.len()
                    == rows.len() && 0 <= k < items.len() && !segwrite::item_fits(#[trigger] items[k]) && e == segwrite::too_long()
        },
    }
}

/// What is written for a record is fixed by the record.
proof fn lemma_items_same(
    t: TableView,
    table: Seq<char>,
    version: u64,
    high: Option<Seq<char>>,
    rows: Seq<BulkRow>,
    a: Seq<ItemView>,
    b: Seq<ItemView>,
    n: int,
)
    requires
        0 <= n <= rows.len(),
        n <= a.len(),
        n <= b.len(),
        rows_ready(t, table, version, high, rows, a, n),
        rows_ready(t, table, version, high, rows, b, rows.len() as int),
    ensures
        forall|i: int| 0 <= i < n ==> a[i] == b[i],
{
    reveal(rows_ready);
    assert forall|i: int| 0 <= i < n implies a[i] == b[i] by {
        assert(row_ready(t, table, version, prev_at(high, a, i), rows[i], a[i]));
        assert(row_ready(t, table, version, prev_at(high, b, i), rows[i], b[i]));
    }
}

/// A load is never refused where its ids rise above those of the table, its
/// records fit the table, and their stored forms fit a segment.
pub proof fn lemma_load_owed(st: &State, table: Seq<char>, rows: Seq<BulkRow>, items: Seq<ItemView>, e: ErrorView)
    requires
        st.table_view(table) matches Some(t) && !has_derived(t) && rows_ready(
            t,
            table,
            next_version(st),
            high_of(st, table),
            rows,
            items,
            rows.len() as int,
        ),
        items.len() == rows.len(),
        forall|k: int| 0 <= k < items.len() ==> segwrite::item_fits(#[trigger] items[k]),
    ensures
        !bulk_error(st, table, rows, e),
{
    let t = st.table_view(table)->0;
    let version = next_version(st);
    let high = high_of(st, table);
    assert forall|other: Seq<ItemView>| !(#[trigger] load_fault(t, table, version, high, rows, other, e)) by {
        if load_fault(t, table, version, high, rows, other, e) {
            let n = other.len() as int;
            lemma_items_same(t, table, version, high, rows, other, items, n);
            reveal(rows_ready);
            assert(row_ready(t, table, version, prev_at(high, items, n), rows[n], items[n]));
            if n > 0 {
                assert(other[n - 1] == items[n - 1]);
            }
        }
    }
    if exists|other: Seq<ItemView>, k: int|
        rows_ready(t, table, version, high, rows, other, rows.len() as int) && other.len() == rows.len() && 0 <= k < other.len()
            && !segwrite::item_fits(#[trigger] other[k]) && e == segwrite::too_long() {
        let (other, k) = choose|other: Seq<ItemView>, k: int|
            rows_ready(t, table, version, high, rows, other, rows.len() as int) && other.len() == rows.len() && 0 <= k < other.len()
                && !segwrite::item_fits(#[trigger] other[k]) && e == segwrite::too_long();
        lemma_items_same(t, table, version, high, rows, other, items, rows.len() as int);
        assert(other[k] == items[k]);
    }
}

/// Loaded ids stand in order, above the ids that were there.
pub proof fn lemma_ids_rise(
    t: TableView,
    table: Seq<char>,
    version: u64,
    high: Option<Seq<char>>,
    rows: Seq<BulkRow>,
    items: Seq<ItemView>,
    n: int,
)
    requires
        0 <= n <= items.len(),
        rows_ready(t, table, version, high, rows, items, n),
    ensures
        forall|i: int, j: int| 0 <= i < j < n ==> bytes::lex_lt(
            encode_utf8((#[trigger] items[i]).id),
            encode_utf8((#[trigger] items[j]).id),
        ),
        high matches Some(h) ==> forall|i: int| 0 <= i < n ==> bytes::lex_lt(encode_utf8(h), encode_utf8((#[trigger] items[i]).id)),
    decreases n,
{
    reveal(rows_ready);
    if n > 0 {
        assert(rows_ready(t, table, version, high, rows, items, n - 1));
        lemma_ids_rise(t, table, version, high, rows, items, n - 1);
        assert(row_ready(t, table, version, prev_at(high, items, n - 1), rows[n - 1], items[n - 1]));
        assert forall|i: int, j: int| 0 <= i < j < n implies bytes::lex_lt(
            encode_utf8((#[trigger] items[i]).id),
            encode_utf8((#[trigger] items[j]).id),
        ) by {
            if j == n - 1 && i < n - 2 {
                bytes::lemma_lex_transitive(encode_utf8(items[i].id), encode_utf8(items[n - 2].id), encode_utf8(items[n - 1].id));
            }
        }
        if high is Some && n > 1 {
            bytes::lemma_lex_transitive(encode_utf8(high->0), encode_utf8(items[n - 2].id), encode_utf8(items[n - 1].id));
        }
    }
}

proof fn lemma_keys_rise(t: TableView, table: Seq<char>, version: u64, high: Option<Seq<char>>, rows: Seq<BulkRow>, items: Seq<ItemView>)
    requires
        rows_ready(t, table, version, high, rows, items, items.len() as int),
    ensures
        forall|i: int, j: int| 0 <= i <= j < items.len() ==> bytes::lex_le((#[trigger] items[i]).key, (#[trigger] items[j]).key),
{
    lemma_ids_rise(t, table, version, high, rows, items, items.len() as int);
    reveal(rows_ready);
    assert forall|i: int, j: int| 0 <= i <= j < items.len() implies bytes::lex_le(
        (#[trigger] items[i]).key,
        (#[trigger] items[j]).key,
    ) by {
        assert(row_ready(t, table, version, prev_at(high, items, i), rows[i], items[i]));
        assert(row_ready(t, table, version, prev_at(high, items, j), rows[j], items[j]));
        if i < j {
            version::lemma_key_order(encode_utf8(table), encode_utf8(items[i].id), encode_utf8(items[j].id));
        }
    }
}

/// Write the segment and the run of a load.
fn write_load(
    st: &State,
    table: &str,
    version: u64,
    items: Vec<SegItem>,
    Ghost(t): Ghost<TableView>,
    Ghost(from): Ghost<Seq<BulkRow>>,
) -> (r: Result<BulkLoad, Error>)
    requires
        st.table_view(table@) == Some(t),
        version == next_version(st),
        items@.len() == from.len(),
        from.len() > 0,
        rows_ready(t, table@, version, high_of(st, table@), from, model::views(items@), from.len() as int),
    ensures
        match r {
            Ok(load) => exists|locs: Seq<u64>| #[trigger] is_load(st, table@, from, model::views(items@), locs, load),
            Err(e) => e@ == segwrite::too_long() && exists|k: int|
                0 <= k < items@.len() && !segwrite::item_fits(#[trigger] model::views(items@)[k]),
        },
{
    let ghost v = model::views(items@);
    let count: usize = items.len();
    let order = same_order(count);
    let (image, locs) = match write_items(&items, &order) {
        Ok(done) => done,
        Err(e) => {
            proof {
                let q = choose|q: int| 0 <= q < order@.len() && !segwrite::item_fits(v[#[trigger] order@[q] as int]);
                assert(!segwrite::item_fits(v[order@[q] as int]));
            }
            return Err(e);
        },
    };
    let segment: u32 = st.next_segment_id;
    proof {
        assert forall|i: int| 0 <= i < v.len() implies segwrite::located_at(#[trigger] v[i], locs@[i], image@)
            && segwrite::item_fits(v[i]) by {
            assert(order@[i] == i as usize);
        }
        assert forall|i: int| 0 <= i < items@.len() implies segwrite::item_fits((#[trigger] items@[i])@) by {
            assert(v[i] == items@[i]@);
        }
        lemma_keys_rise(t, table@, version, high_of(st, table@), from, v);
        segwrite::lemma_rows_in_order(v, locs@, segment, st.catalog@, v.len() as int);
    }
    let made = make_run_rows(&items, &locs, segment, &st.catalog);
    let mut metas = copy_metas(&st.metas);
    let length: usize = image.len();
    metas.push(SegmentMeta { id: segment, len: length as u64 });
    let generation: u64 = primary_generation(version, &metas, &st.catalog);
    let run = PagedIndex::from_rows(made, generation);
    let last_id: String = items[count - 1].id.clone();
    assert(v[count - 1] == items@[count - 1]@);
    let done = BulkLoad {
        table: table.to_owned(),
        version,
        rows: count,
        segment,
        image: Arc::new(image),
        run,
        generation,
        metas,
        last_id,
    };
    let made_load: Result<BulkLoad, Error> = Ok(done);
    assert(is_load(st, table@, from, v, locs@, made_load->Ok_0));
    made_load
}

/// Prepare a load of records that come in the order of their ids. Nothing is
/// resident when this is called, and a load without records does nothing.
pub fn bulk_insert_sorted(st: &State, read_only: bool, table: &str, rows: Vec<BulkRow>) -> (r: Result<Option<BulkLoad>, Error>)
    requires
        st.wf(),
        st.table_view(table@) matches Some(t) ==> forall|i: int|
            0 <= i < rows@.len() ==> (#[trigger] rows@[i]).record.wf() && rows@[i].external@.len() == t.columns.len(),
    ensures
        read_only ==> r is Err && r->Err_0@ == ErrorView::ReadOnly,
        !read_only ==> match r {
            Ok(Some(load)) => st.table_view(table@) is Some && !has_derived(st.table_view(table@)->0) && exists|
                items: Seq<ItemView>,
                locs: Seq<u64>,
            | #[trigger] is_load(st, table@, rows@, items, locs, load),
            Ok(None) => st.table_view(table@) is Some && !has_derived(st.table_view(table@)->0) && rows@.len() == 0,
            Err(e) => bulk_error(st, table@, rows@, e@),
        },
{
    if read_only {
        return Err(Error::ReadOnly);
    }
    let schema = match st.catalog.table(table) {
        None => {
            return Err(table_not_found(table));
        },
        Some(t) => t,
    };
    let ghost t = schema@;
    let ghost from = rows@;
    proof {
        st.lemma_table(table@);
    }
    if schema.indexes.len() > 0 || schema.text_indexes.len() > 0 || schema.vector_indexes.len() > 0 {
        return Err(
            Error::InvalidArgument(
                "bulk_insert_sorted requires ".to_owned().concat(table).concat(
                    " to have no derived indexes; create them after the load",
                ),
            ),
        );
    }
    if rows.len() == 0 {
        return Ok(None);
    }
    let version: u64 = st.committed_version.saturating_add(1);
    let high: Option<String> = match st.high_ids.get(table.as_bytes()) {
        Some(h) => Some(h.clone()),
        None => None,
    };
    let ghost first = high_of(st, table@);
    assert(model::text_view(high) == first);
    let items = match ready_rows(schema, table, version, high, rows) {
        Ok(items) => items,
        Err(e) => {
            proof {
                let found = choose|items: Seq<ItemView>| #[trigger] load_fault(t, table@, version, first, from, items, e@);
                assert(load_fault(t, table@, next_version(st), high_of(st, table@), from, found, e@));
            }
            return Err(e);
        },
    };
    let ghost v = model::views(items@);
    match write_load(st, table, version, items, Ghost(t), Ghost(from)) {
        Ok(load) => {
            let done: Result<Option<BulkLoad>, Error> = Ok(Some(load));
            proof {
                let locs = choose|locs: Seq<u64>| #[trigger] is_load(st, table@, from, v, locs, load);
                assert(is_load(st, table@, from, v, locs, done->Ok_0->0));
            }
            done
        },
        Err(e) => {
            proof {
                let k = choose|k: int| 0 <= k < v.len() && !segwrite::item_fits(#[trigger] v[k]);
                assert(!segwrite::item_fits(v[k]));
            }
            Err(e)
        },
    }
}

/// The state after a load was taken over.
pub open spec fn load_taken(before: &State, after: &State, r: BulkLoad, meta: RunMetaView) -> bool {
    &&& after.catalog == before.catalog
    &&& after.committed_version == r.version
    &&& after.superseded == before.superseded
    &&& after.secondary == before.secondary
    &&& after.identities == before.identities
    &&& after.blobs == before.blobs
    &&& after.metas == r.metas
    &&& after.next_segment_id == r.segment + 1
    &&& model::views(after.segments@) == model::views(before.segments@).push(SegmentView { id: r.segment, image: r.image@ })
    &&& after.high_ids.wf()
    &&& after.high_ids@ == before.high_ids@.insert(encode_utf8(r.table@), r.last_id@)
    &&& after.index.wf()
    &&& after.index.generation == r.generation
    &&& after.index.delta == before.index.delta
    &&& after.index.frozen == before.index.frozen
    &&& after.index.runs@.len() == before.index.runs@.len() + 1
    &&& after.index.runs@.drop_last() == before.index.runs@
    &&& after.index.runs@.last().meta@ == meta
    &&& after.index.runs@.last().index.rows() == r.run.rows()
}

impl State {
    /// Take over a load: all its records become visible at one version.
    pub fn adopt_bulk(&mut self, r: BulkLoad, file: String, level: u8, bytes: u64)
        requires
            old(self).wf(),
            r.run.wf(),
            r.segment < u32::MAX,
        ensures
            load_taken(old(self), final(self), r, RunMetaView { file: file@, level, bytes, generation: r.generation }),
    {
        let BulkLoad { table, version, rows: _, segment, image, run, generation, metas, last_id } = r;
        self.take_segment_quietly(segment, image, metas);
        self.committed_version = version;
        self.index.generation = generation;
        self.take_run(run, RunMeta { file, level, bytes, generation });
        let _ = self.high_ids.insert(table, last_id);
    }

    fn take_segment_quietly(&mut self, segment: u32, image: Arc<Vec<u8>>, metas: Vec<SegmentMeta>)
        requires
            segment < u32::MAX,
        ensures
            *final(self) == (State {
                segments: final(self).segments,
                metas: metas,
                next_segment_id: (segment + 1) as u32,
                ..*old(self)
            }),
            model::views(final(self).segments@) == model::views(old(self).segments@).push(
                SegmentView { id: segment, image: image@ },
            ),
    {
        let ghost before = self.segments@;
        self.segments.push(segment::Segment { id: segment, image });
        assert(model::views(self.segments@) =~= model::views(before).push(SegmentView { id: segment, image: image@ }));
        self.metas = metas;
        self.next_segment_id = segment + 1;
    }
}

// ---- What a load means to readers -------------------------------------------

/// The versions of a record after a load: those before, and the loaded one.
pub open spec fn record_loaded(before: &State, after: &State, items: Seq<ItemView>, locs: Seq<u64>, segment: u32, table: Seq<char>, id: Seq<char>) -> bool {
    let key = version::key_of(encode_utf8(table), encode_utf8(id));
    match before.index.entries(key) {
        Err(m) => after.index.entries(key) == Err::<Seq<VersionView>, Seq<char>>(m),
        Ok(s) => after.index.entries(key) matches Ok(t) && forall|v: VersionView|
            #[trigger] t.contains(v) <==> s.contains(v) || exists|k: int|
                0 <= k < items.len() && (#[trigger] items[k]).key == key && v == segwrite::placed(items[k], segment, locs[k]),
    }
}

pub proof fn lemma_record_loaded(
    before: &State,
    after: &State,
    rows: Seq<BulkRow>,
    items: Seq<ItemView>,
    locs: Seq<u64>,
    r: BulkLoad,
    meta: RunMetaView,
    table: Seq<char>,
    id: Seq<char>,
)
    requires
        before.wf(),
        before.table_view(r.table@) is Some,
        before.table_view(r.table@)->0.epoch < r.version,
        is_load(before, r.table@, rows, items, locs, r),
        load_taken(before, after, r, meta),
    ensures
        record_loaded(before, after, items, locs, r.segment, table, id),
{
    let key = version::key_of(encode_utf8(table), encode_utf8(id));
    let made = r.run.rows();
    let values = paged::values_of(made, key);
    let n = items.len() as int;
    let t = before.table_view(r.table@)->0;
    reveal(rows_ready);
    levels::lemma_entries_of(values);
    assert forall|value: Seq<u8>| #[trigger] values.contains(value) implies exists|k: int|
        #[trigger] segwrite::is_row_of(items, locs, r.segment, before.catalog@, k, (key, value)) by {
        paged::lemma_values_of(made, key, value);
        segwrite::lemma_run_rows(items, locs, r.segment, before.catalog@, n, (key, value));
        let k = choose|k: int| k < n && #[trigger] segwrite::is_row_of(items, locs, r.segment, before.catalog@, k, (key, value));
        assert(segwrite::is_row_of(items, locs, r.segment, before.catalog@, k, (key, value)));
    }
    if primary::entries_of(values) is Err {
        let i = choose|i: int| 0 <= i < values.len() && version::entry_of(#[trigger] values[i]) is Err;
        assert(values.contains(values[i]));
        let k = choose|k: int| #[trigger] segwrite::is_row_of(items, locs, r.segment, before.catalog@, k, (key, values[i]));
        version::lemma_entry_round_trip(segwrite::placed(items[k], r.segment, locs[k]));
    }
    let list = primary::entries_of(values)->Ok_0;
    assert forall|v: VersionView| #[trigger] list.contains(v) <==> exists|k: int|
        0 <= k < n && (#[trigger] items[k]).key == key && v == segwrite::placed(items[k], r.segment, locs[k]) by {
        if list.contains(v) {
            let p = list.index_of(v);
            assert(version::entry_of(values[p]) == Ok::<VersionView, Seq<char>>(list[p]));
            assert(values.contains(values[p]));
            let k = choose|k: int| #[trigger] segwrite::is_row_of(items, locs, r.segment, before.catalog@, k, (key, values[p]));
            version::lemma_entry_round_trip(segwrite::placed(items[k], r.segment, locs[k]));
            assert(items[k].key == key && v == segwrite::placed(items[k], r.segment, locs[k]));
        }
        if exists|k: int| 0 <= k < n && (#[trigger] items[k]).key == key && v == segwrite::placed(items[k], r.segment, locs[k]) {
            let k = choose|k: int|
                0 <= k < n && (#[trigger] items[k]).key == key && v == segwrite::placed(items[k], r.segment, locs[k]);
            let value = version::entry_bytes(v);
            assert(row_ready(t, r.table@, r.version, prev_at(high_of(before, r.table@), items, k), rows[k], items[k]));
            assert(items[k].version > segwrite::epoch_of(before.catalog@, items[k].table));
            assert(segwrite::is_row_of(items, locs, r.segment, before.catalog@, k, (key, value)));
            segwrite::lemma_run_rows(items, locs, r.segment, before.catalog@, n, (key, value));
            paged::lemma_values_of(made, key, value);
            assert(values.contains(value));
            let p = values.index_of(value);
            version::lemma_entry_round_trip(v);
            assert(version::entry_of(values[p]) == Ok::<VersionView, Seq<char>>(list[p]));
        }
    }
    match primary::run_entries(before.index.runs@, key) {
        Err(_) => {},
        Ok(runs) => {
            let f = primary::resident(before.index.frozen_map(), key);
            let d = primary::resident(before.index.delta@, key);
            let s = runs + f + d;
            let x = runs + list + f + d;
            assert(primary::run_entries(after.index.runs@, key) == Ok::<Seq<VersionView>, Seq<char>>(runs + list));
            assert(after.index.entries(key) == Ok::<Seq<VersionView>, Seq<char>>(x));
            assert(before.index.entries(key) == Ok::<Seq<VersionView>, Seq<char>>(s));
            assert forall|v: VersionView| #[trigger] x.contains(v) <==> s.contains(v) || list.contains(v) by {
                checkpoint_laws::lemma_concat_contains(runs, f);
                checkpoint_laws::lemma_concat_contains(runs + f, d);
                checkpoint_laws::lemma_concat_contains(runs, list);
                checkpoint_laws::lemma_concat_contains(runs + list, f);
                checkpoint_laws::lemma_concat_contains(runs + list + f, d);
                assert((runs + f).contains(v) <==> runs.contains(v) || f.contains(v));
                assert((runs + list).contains(v) <==> runs.contains(v) || list.contains(v));
                assert((runs + list + f).contains(v) <==> (runs + list).contains(v) || f.contains(v));
            }
        },
    }
}

/// A reader of an older version sees nothing of a load: of each record it sees
/// the version that it saw before.
pub proof fn lemma_load_hidden(
    before: &State,
    after: &State,
    rows: Seq<BulkRow>,
    items: Seq<ItemView>,
    locs: Seq<u64>,
    r: BulkLoad,
    meta: RunMetaView,
    table: Seq<char>,
    id: Seq<char>,
    max: u64,
)
    requires
        before.wf(),
        before.versions_ok(),
        before.table_view(r.table@) is Some,
        before.table_view(r.table@)->0.epoch < r.version,
        is_load(before, r.table@, rows, items, locs, r),
        load_taken(before, after, r, meta),
        max < r.version,
    ensures
        after.visible(table, encode_utf8(id), max) == before.visible(table, encode_utf8(id), max),
{
    let key = version::key_of(encode_utf8(table), encode_utf8(id));
    lemma_record_loaded(before, after, rows, items, locs, r, meta, table, id);
    reveal(rows_ready);
    if before.index.entries(key) is Ok {
        let s = before.index.entries(key)->Ok_0;
        let t = after.index.entries(key)->Ok_0;
        primary::lemma_newest_of(s, max);
        primary::lemma_newest_of(t, max);
        assert forall|v: VersionView| v.version <= max implies (#[trigger] t.contains(v) <==> s.contains(v)) by {
            if t.contains(v) && !s.contains(v) {
                let k = choose|k: int|
                    0 <= k < items.len() && (#[trigger] items[k]).key == key && v == segwrite::placed(items[k], r.segment, locs[k]);
                assert(row_ready(
                    before.table_view(r.table@)->0,
                    r.table@,
                    r.version,
                    prev_at(high_of(before, r.table@), items, k),
                    rows[k],
                    items[k],
                ));
            }
        }
        match (primary::newest_of(s, max), primary::newest_of(t, max)) {
            (Some(a), Some(b)) => {
                assert(t.contains(a) && s.contains(b));
                let i = s.index_of(a);
                let j = s.index_of(b);
                let k = t.index_of(a);
                assert(t[k].version <= max && s[j].version <= max);
                assert(s[i] == s[j]);
            },
            (Some(a), None) => {
                assert(t.contains(a));
                let k = t.index_of(a);
                assert(t[k].version > max);
            },
            (None, Some(b)) => {
                assert(s.contains(b));
                let k = s.index_of(b);
                assert(s[k].version > max);
            },
            (None, None) => {},
        }
    }
}

/// A reader at the version of a load, or later, gets every record of it.
pub proof fn lemma_load_read(
    before: &State,
    after: &State,
    rows: Seq<BulkRow>,
    items: Seq<ItemView>,
    locs: Seq<u64>,
    r: BulkLoad,
    meta: RunMetaView,
    k: int,
    max: u64,
)
    requires
        before.wf(),
        before.versions_ok(),
        before.committed_version < u64::MAX,
        before.index.sound(),
        before.table_view(r.table@) is Some,
        before.table_view(r.table@)->0.epoch < r.version,
        is_load(before, r.table@, rows, items, locs, r),
        load_taken(before, after, r, meta),
        0 <= k < items.len(),
        max >= r.version,
    ensures
        after.visible(r.table@, encode_utf8(items[k].id), max) == Ok::<Option<VersionView>, Seq<char>>(
            Some(segwrite::placed(items[k], r.segment, locs[k])),
        ),
        segment::payload_of(after.images(), segwrite::placed(items[k], r.segment, locs[k]).kind) == Ok::<
            Option<Seq<u8>>,
            ErrorView,
        >(Some(row_payload(before.table_view(r.table@)->0, rows[k]))),
{
    let table = r.table@;
    let t = before.table_view(table)->0;
    let high = high_of(before, table);
    let n = items.len() as int;
    let id = items[k].id;
    let key = version::key_of(encode_utf8(table), encode_utf8(id));
    lemma_record_loaded(before, after, rows, items, locs, r, meta, table, id);
    lemma_ids_rise(t, table, r.version, high, rows, items, n);
    before.lemma_table(table);
    reveal(rows_ready);
    assert(row_ready(t, table, r.version, prev_at(high, items, k), rows[k], items[k]));
    let v = segwrite::placed(items[k], r.segment, locs[k]);
    assert(before.index.entries(key) is Ok) by {
        if before.index.entries(key) is Err {
            lemma_err_held(before, key);
        }
    }
    let s = before.index.entries(key)->Ok_0;
    let x = after.index.entries(key)->Ok_0;
    assert(x.contains(v)) by {
        assert(items[k].key == key);
    }
    primary::lemma_newest_of(x, max);
    let p = x.index_of(v);
    assert(x[p].version <= max);
    let b = primary::newest_of(x, max)->0;
    assert(x.contains(b));
    if s.contains(b) {
        let q = s.index_of(b);
        assert(s[q].version <= before.committed_version);
    } else {
        let j = choose|j: int|
            0 <= j < items.len() && (#[trigger] items[j]).key == key && b == segwrite::placed(items[j], r.segment, locs[j]);
        assert(row_ready(t, table, r.version, prev_at(high, items, j), rows[j], items[j]));
        version::lemma_key_order(encode_utf8(table), encode_utf8(items[j].id), encode_utf8(id));
        bytes::lemma_lex_irreflexive(encode_utf8(id));
        if j < k {
            assert(bytes::lex_lt(encode_utf8(items[j].id), encode_utf8(items[k].id)));
        }
        if k < j {
            assert(bytes::lex_lt(encode_utf8(items[k].id), encode_utf8(items[j].id)));
        }
        assert(j == k);
    }
    let images = after.images();
    assert(images.last() == SegmentView { id: r.segment, image: r.image@ });
    assert(segwrite::located_at(items[k], locs[k], r.image@));
    assert(segment::image_of(images, r.segment) == Some(r.image@));
    let payload = row_payload(t, rows[k]);
    assert(payload.len() as u32 == payload.len());
}

/// A directory that cannot be read has something under the key.
proof fn lemma_err_held(st: &State, key: Seq<u8>)
    requires
        st.index.entries(key) is Err,
    ensures
        st.index.holds(key),
{
    if !st.index.holds(key) {
        crate::compact_laws::lemma_unheld(st.index.runs@, key);
    }
}

} // verus!
