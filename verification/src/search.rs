//! Searches by words and by vectors: what is asked of the rankings, and what is
//! made of their answers.

use crate::bytes::{self, byte_len};
use crate::catalog::{dotted, dotted_text};
use crate::cow::{self, CowMap};
use crate::error::{invalid, table_not_found, Error, ErrorView};
use crate::find::{self, read_listed, Hit, HitView};
use crate::model;
use crate::order::{Datum, OrderedKey};
use crate::pairs;
use crate::record::{self, unknown_name, Record, RecordView};
use crate::schema::{self, TableSchema, TableView};
use crate::segment::{self, read_record_kind};
use crate::state::{self, add_id, State};
use crate::text::{self, decimal_text};
use crate::value::{self, same_value, ColumnType, Value, ValueView};
use vstd::prelude::*;
use vstd::string::*;
use vstd::utf8::*;

verus! {

// ---- Filters ----------------------------------------------------------------

pub open spec fn record_view(r: Option<&Record>) -> Option<RecordView> {
    match r {
        Some(rec) => Some(rec@),
        None => None,
    }
}

/// Whether a filter names only columns of the table and the primary key.
pub open spec fn filter_known(t: TableView, filter: Option<RecordView>) -> bool {
    filter matches Some(f) ==> record::names_known(t.columns, f.remove(record::id_key()))
}

/// The complaint about the first name of a filter that is no column.
pub open spec fn filter_complaint(t: TableView, filter: Option<RecordView>, e: ErrorView) -> bool {
    exists|name: Seq<char>|
        record::first_unknown(t.columns, filter->0.remove(record::id_key()), #[trigger] encode_utf8(name)) && e
            == ErrorView::SchemaViolation("unknown filter column '"@ + name + "'"@)
}

fn check_filter(schema: &TableSchema, filter: Option<&Record>) -> (r: Result<(), Error>)
    requires
        filter matches Some(f) ==> f.wf(),
    ensures
        r is Ok <==> filter_known(schema@, record_view(filter)),
        r matches Err(e) ==> filter_complaint(schema@, record_view(filter), e@),
{
    match filter {
        None => Ok(()),
        Some(f) => {
            let mut rest = f.duplicate_map();
            let _ = rest.remove(schema::ID_COLUMN.as_bytes());
            match unknown_name(schema, &rest) {
                None => Ok(()),
                Some(name) => {
                    let e = Error::SchemaViolation("unknown filter column '".to_owned().concat(name.as_str()).concat("'"));
                    assert(record::first_unknown(schema@.columns, f@.remove(record::id_key()), encode_utf8(name@)));
                    Err(e)
                },
            }
        },
    }
}

/// Whether a record has what a filter asks of one of its fields. A field that is
/// not there is null.
pub open spec fn field_passes(rec: RecordView, id: Seq<char>, name: Seq<u8>, want: ValueView) -> bool {
    if name == record::id_key() {
        want == ValueView::Text(id)
    } else {
        value::value_eq(record::value_in(rec, name), want)
    }
}

/// Whether a record passes a filter.
pub open spec fn passes(rec: RecordView, id: Seq<char>, filter: RecordView) -> bool {
    forall|name: Seq<u8>| #[trigger] filter.contains_key(name) ==> field_passes(rec, id, name, filter[name])
}

fn passes_filter(rec: &Record, id: &str, filter: &Record) -> (r: bool)
    requires
        rec.wf(),
        filter.wf(),
    ensures
        r == passes(rec@, id@, filter@),
{
    let ghost s = filter.pairs();
    let fields = filter.iter();
    proof {
        filter.lemma_wf();
    }
    let mut i: usize = 0;
    while i < fields.len()
        invariant
            rec.wf(),
            filter.wf(),
            s == filter.pairs(),
            pairs::sorted(s),
            filter@ == pairs::to_map(s),
            i <= fields@.len() == s.len(),
            cow::entry_pairs(fields@) == s,
            forall|j: int| 0 <= j < i ==> field_passes(rec@, id@, (#[trigger] s[j]).0, s[j].1),
        decreases fields@.len() - i,
    {
        let (name, want) = fields[i];
        proof {
            assert(cow::entry_pairs(fields@)[i as int] == (name.rank(), want@));
            pairs::lemma_to_map_at(s, i as int);
        }
        let ok = if bytes::same_bytes(name.as_str().as_bytes(), schema::ID_COLUMN.as_bytes()) {
            match want {
                Value::Text(t) => bytes::same_text(t.as_str(), id),
                _ => false,
            }
        } else {
            match rec.get(name.as_str().as_bytes()) {
                Some(v) => same_value(v, want),
                None => {
                    let null = Value::Null;
                    same_value(&null, want)
                },
            }
        };
        assert(ok == field_passes(rec@, id@, s[i as int].0, s[i as int].1));
        if !ok {
            assert(filter@.contains_key(s[i as int].0));
            return false;
        }
        i = i + 1;
    }
    proof {
        assert forall|name: Seq<u8>| #[trigger] filter@.contains_key(name) implies field_passes(rec@, id@, name, filter@[name]) by {
            let j = pairs::index_of(s, name);
            assert(s[j].0 == name);
            pairs::lemma_to_map_at(s, j);
        }
    }
    true
}

/// Whether a record may be among the hits: it is there, and it passes the filter.
pub open spec fn accepted(st: &State, t: TableView, id: Seq<char>, filter: Option<RecordView>) -> Result<bool, ErrorView> {
    match st.latest(t.name, encode_utf8(id)) {
        Err(m) => Err(ErrorView::Corrupt(m)),
        Ok(None) => Ok(false),
        Ok(Some(v)) => if v.kind.is_tombstone() {
            Ok(false)
        } else {
            match filter {
                None => Ok(true),
                Some(f) => match segment::record_of(st.images(), st.blobs@, v.kind) {
                    Err(e) => Err(e),
                    Ok(rec) => Ok(passes(rec, id, f)),
                },
            }
        },
    }
}

impl State {
    /// Whether a record may be among the hits of a search by words.
    pub fn accepts(&self, schema: &TableSchema, id: &str, filter: Option<&Record>) -> (r: Result<bool, Error>)
        requires
            self.wf(),
            filter matches Some(f) ==> f.wf(),
        ensures
            match accepted(self, schema@, id@, record_view(filter)) {
                Ok(b) => r == Ok::<bool, Error>(b),
                Err(e) => r is Err && r->Err_0@ == e,
            },
    {
        let entry = match self.latest_owned(schema.name.as_str(), id) {
            Err(e) => {
                return Err(e);
            },
            Ok(None) => {
                return Ok(false);
            },
            Ok(Some(v)) => v,
        };
        if entry.is_tombstone() {
            return Ok(false);
        }
        match filter {
            None => Ok(true),
            Some(f) => match read_record_kind(&self.blobs, &self.segments, &entry.kind) {
                Err(e) => Err(e),
                Ok(rec) => Ok(passes_filter(&rec, id, f)),
            },
        }
    }
}

// ---- Searching by words -----------------------------------------------------

/// At least one.
pub open spec fn at_least_one(n: int) -> int {
    if n < 1 {
        1
    } else {
        n
    }
}

/// The most hits that the memory of a query has room for, at `each` bytes a hit.
pub fn candidate_capacity(working_bytes: usize, each: usize) -> (r: usize)
    requires
        each > 0,
    ensures
        r == at_least_one((working_bytes / each) as int),
{
    let n: usize = working_bytes / each;
    if n < 1 {
        1
    } else {
        n
    }
}

pub open spec fn text_too_large(capacity: int) -> ErrorView {
    ErrorView::MemoryLimit(
        "text search request exceeds its per-query budget (top_k capacity "@ + text::decimal(capacity as nat) + ")"@,
    )
}

/// What a search by words comes to before it is run: whether there is anything
/// to look for.
pub open spec fn text_plan(
    st: &State,
    working: usize,
    table: Seq<char>,
    column: Seq<char>,
    query: Seq<char>,
    top_k: usize,
    filter: Option<RecordView>,
    indexed: bool,
    r: Result<bool, ErrorView>,
) -> bool {
    let capacity = at_least_one((working / 64) as int);
    if top_k == 0 {
        r == Ok::<bool, ErrorView>(false)
    } else if top_k > capacity || encode_utf8(query).len() > working {
        r == Err::<bool, ErrorView>(text_too_large(capacity))
    } else {
        match st.table_view(table) {
            None => r == Err::<bool, ErrorView>(ErrorView::TableNotFound(table)),
            Some(t) => if !filter_known(t, filter) {
                r is Err && filter_complaint(t, filter, r->Err_0)
            } else if !indexed {
                r == Err::<bool, ErrorView>(
                    ErrorView::InvalidArgument(
                        "no text index on "@ + dotted(table, column) + "; create one with create_text_index"@,
                    ),
                )
            } else {
                r == Ok::<bool, ErrorView>(true)
            },
        }
    }
}

pub open spec fn bool_result(r: Result<bool, Error>) -> Result<bool, ErrorView> {
    match r {
        Ok(b) => Ok(b),
        Err(e) => Err(e@),
    }
}

impl State {
    /// Whether a search by words is to be run. `indexed` says whether the column
    /// has a text index.
    pub fn plan_text_search(
        &self,
        working_bytes: usize,
        table: &str,
        column: &str,
        query: &str,
        top_k: usize,
        filter: Option<&Record>,
        indexed: bool,
    ) -> (r: Result<bool, Error>)
        requires
            filter matches Some(f) ==> f.wf(),
        ensures
            text_plan(
                self,
                working_bytes,
                table@,
                column@,
                query@,
                top_k,
                record_view(filter),
                indexed,
                bool_result(r),
            ),
    {
        if top_k == 0 {
            return Ok(false);
        }
        let capacity: usize = candidate_capacity(working_bytes, 64);
        if top_k > capacity || byte_len(query) > working_bytes {
            let n = decimal_text(capacity as u64);
            return Err(
                Error::MemoryLimit(
                    "text search request exceeds its per-query budget (top_k capacity ".to_owned().concat(n.as_str()).concat(
                        ")",
                    ),
                ),
            );
        }
        let schema = match self.catalog.table(table) {
            None => {
                return Err(table_not_found(table));
            },
            Some(t) => t,
        };
        match check_filter(schema, filter) {
            Err(e) => {
                return Err(e);
            },
            Ok(_) => {},
        }
        if !indexed {
            return Err(
                Error::InvalidArgument(
                    "no text index on ".to_owned().concat(dotted_text(table, column).as_str()).concat(
                        "; create one with create_text_index",
                    ),
                ),
            );
        }
        Ok(true)
    }

    /// The records of ids that a ranking gave, in its order.
    pub fn read_ranked(&self, schema: &TableSchema, ids: Vec<String>) -> (r: Result<Vec<Hit>, Error>)
        requires
            self.wf(),
        ensures
            find::found(r) == find::listed_hits(self, schema@, model::views(ids@), ids@.len() as int),
            r matches Ok(hits) ==> find::hits_wf(hits@),
    {
        read_listed(self, schema, ids)
    }
}

// ---- Searching by a vector --------------------------------------------------

/// A search for the nearest vectors: more candidates are fetched until enough
/// pass the filter, or all that there is room for were fetched.
#[derive(Clone, Copy, PartialEq, Eq, Structural, Debug)]
pub struct VectorSearch {
    pub top_k: usize,
    /// How many candidates are fetched.
    pub fetch: usize,
    /// The most candidates that may be fetched.
    pub limit: usize,
    /// How widely the graph is searched at least.
    pub ef: usize,
}

pub open spec fn smaller(a: int, b: int) -> int {
    if a < b {
        a
    } else {
        b
    }
}

pub open spec fn larger(a: int, b: int) -> int {
    if a > b {
        a
    } else {
        b
    }
}

fn times(a: usize, n: usize) -> (r: usize)
    requires
        n > 0,
    ensures
        r == record::capped(a * n),
{
    if a > usize::MAX / n {
        proof {
            assert(a * n > usize::MAX) by (nonlinear_arith)
                requires
                    a > usize::MAX / n,
                    n > 0,
            ;
        }
        usize::MAX
    } else {
        proof {
            assert(a * n <= usize::MAX) by (nonlinear_arith)
                requires
                    a <= usize::MAX / n,
                    n > 0,
            ;
        }
        a * n
    }
}

fn min_of(a: usize, b: usize) -> (r: usize)
    ensures
        r == smaller(a as int, b as int),
{
    if a < b {
        a
    } else {
        b
    }
}

fn max_of(a: usize, b: usize) -> (r: usize)
    ensures
        r == larger(a as int, b as int),
{
    if a > b {
        a
    } else {
        b
    }
}

/// How a search begins.
pub open spec fn vector_start(top_k: usize, ef_search: Option<usize>, capacity: int, total: usize, s: VectorSearch) -> bool {
    &&& s.top_k == top_k
    &&& s.limit == smaller(total as int, capacity)
    &&& s.ef == smaller(
        match ef_search {
            Some(ef) => ef as int,
            None => larger(record::capped(top_k * 2), 64),
        },
        capacity,
    )
    &&& s.fetch == smaller(larger(record::capped(top_k * 4), 32), s.limit as int)
}

/// The vectors of an index: those that are alive, and all.
#[derive(Clone, Copy, PartialEq, Eq, Structural, Debug)]
pub struct VectorCount {
    pub live: usize,
    pub total: usize,
}

/// What a search by a vector comes to before it is run; none where nothing can
/// be found.
pub open spec fn vector_plan(
    st: &State,
    working: usize,
    table: Seq<char>,
    column: Seq<char>,
    dim: usize,
    top_k: usize,
    ef_search: Option<usize>,
    filter: Option<RecordView>,
    index: Option<VectorCount>,
    r: Result<Option<VectorSearch>, ErrorView>,
) -> bool {
    let capacity = at_least_one((working / 128) as int);
    if top_k == 0 {
        r == Ok::<Option<VectorSearch>, ErrorView>(None)
    } else {
        match st.table_view(table) {
            None => r == Err::<Option<VectorSearch>, ErrorView>(ErrorView::TableNotFound(table)),
            Some(t) => match schema::column_of(t.columns, column) {
                None => r == Err::<Option<VectorSearch>, ErrorView>(record::unknown_column(column)),
                Some(c) => if c.ty != ColumnType::Vector {
                    r == Err::<Option<VectorSearch>, ErrorView>(
                        ErrorView::SchemaViolation(dotted(table, column) + " is not a vector column"@),
                    )
                } else if c.dim is Some && c.dim->0 != dim {
                    r == Err::<Option<VectorSearch>, ErrorView>(
                        ErrorView::InvalidArgument(
                            "query has dimension "@ + text::decimal(dim as nat) + ", column expects "@ + text::decimal(
                                c.dim->0 as nat,
                            ),
                        ),
                    )
                } else if !filter_known(t, filter) {
                    r is Err && filter_complaint(t, filter, r->Err_0)
                } else {
                    match index {
                        None => r == Err::<Option<VectorSearch>, ErrorView>(
                            ErrorView::InvalidArgument(
                                "no vector index on "@ + dotted(table, column) + "; create one with create_vector_index"@,
                            ),
                        ),
                        Some(n) => if top_k > capacity {
                            r == Err::<Option<VectorSearch>, ErrorView>(
                                ErrorView::MemoryLimit(
                                    "vector top_k="@ + text::decimal(top_k as nat)
                                        + " exceeds the per-query candidate capacity "@ + text::decimal(capacity as nat),
                                ),
                            )
                        } else if n.live == 0 {
                            r == Ok::<Option<VectorSearch>, ErrorView>(None)
                        } else {
                            r matches Ok(Some(s)) && vector_start(top_k, ef_search, capacity, n.total, s)
                        },
                    }
                },
            },
        }
    }
}

pub open spec fn plan_result(r: Result<Option<VectorSearch>, Error>) -> Result<Option<VectorSearch>, ErrorView> {
    match r {
        Ok(s) => Ok(s),
        Err(e) => Err(e@),
    }
}

impl State {
    /// Check a search by a vector of a dimension, and begin it. `index` counts
    /// the vectors of the column's index.
    pub fn plan_vector_search(
        &self,
        working_bytes: usize,
        table: &str,
        column: &str,
        dim: usize,
        top_k: usize,
        ef_search: Option<usize>,
        filter: Option<&Record>,
        index: Option<VectorCount>,
    ) -> (r: Result<Option<VectorSearch>, Error>)
        requires
            filter matches Some(f) ==> f.wf(),
        ensures
            vector_plan(
                self,
                working_bytes,
                table@,
                column@,
                dim,
                top_k,
                ef_search,
                record_view(filter),
                index,
                plan_result(r),
            ),
    {
        if top_k == 0 {
            return Ok(None);
        }
        let schema = match self.catalog.table(table) {
            None => {
                return Err(table_not_found(table));
            },
            Some(t) => t,
        };
        let col = match schema.column(column) {
            None => {
                return Err(Error::SchemaViolation("unknown column '".to_owned().concat(column).concat("'")));
            },
            Some(c) => c,
        };
        if col.ty != ColumnType::Vector {
            return Err(Error::SchemaViolation(table.to_owned().concat(".").concat(column).concat(" is not a vector column")));
        }
        match col.dim {
            Some(expected) => {
                if dim != expected {
                    let a = decimal_text(dim as u64);
                    let b = decimal_text(expected as u64);
                    return Err(
                        Error::InvalidArgument(
                            "query has dimension ".to_owned().concat(a.as_str()).concat(", column expects ").concat(b.as_str()),
                        ),
                    );
                }
            },
            None => {},
        }
        match check_filter(schema, filter) {
            Err(e) => {
                return Err(e);
            },
            Ok(_) => {},
        }
        let n = match index {
            None => {
                return Err(
                    Error::InvalidArgument(
                        "no vector index on ".to_owned().concat(dotted_text(table, column).as_str()).concat(
                            "; create one with create_vector_index",
                        ),
                    ),
                );
            },
            Some(n) => n,
        };
        let capacity: usize = candidate_capacity(working_bytes, 128);
        if top_k > capacity {
            let a = decimal_text(top_k as u64);
            let b = decimal_text(capacity as u64);
            return Err(
                Error::MemoryLimit(
                    "vector top_k=".to_owned().concat(a.as_str()).concat(" exceeds the per-query candidate capacity ").concat(
                        b.as_str(),
                    ),
                ),
            );
        }
        let wide: usize = match ef_search {
            Some(ef) => ef,
            None => max_of(times(top_k, 2), 64),
        };
        if n.live == 0 {
            return Ok(None);
        }
        let limit: usize = min_of(n.total, capacity);
        let fetch: usize = min_of(max_of(times(top_k, 4), 32), limit);
        Ok(Some(VectorSearch { top_k, fetch, limit, ef: min_of(wide, capacity) }))
    }
}

/// A candidate that became a hit: its place among the candidates, and its record.
pub struct Kept {
    pub at: usize,
    pub hit: Hit,
}

#[verifier::ext_equal]
pub struct KeptView {
    pub at: int,
    pub hit: HitView,
}

impl View for Kept {
    type V = KeptView;

    open spec fn view(&self) -> KeptView {
        KeptView { at: self.at as int, hit: self.hit@ }
    }
}

pub open spec fn kept_wf(s: Seq<Kept>) -> bool {
    forall|i: int| 0 <= i < s.len() ==> (#[trigger] s[i]).hit.record.wf()
}

/// A candidate as a hit, where it is there and passes the filter.
pub open spec fn candidate_hit(st: &State, t: TableView, id: Seq<char>, filter: Option<RecordView>) -> Result<
    Option<HitView>,
    ErrorView,
> {
    match st.latest(t.name, encode_utf8(id)) {
        Err(m) => Err(ErrorView::Corrupt(m)),
        Ok(None) => Ok(None),
        Ok(Some(v)) => if v.kind.is_tombstone() {
            Ok(None)
        } else {
            match segment::record_of(st.images(), st.blobs@, v.kind) {
                Err(e) => Err(e),
                Ok(rec) => if filter is Some && !passes(rec, id, filter->0) {
                    Ok(None)
                } else {
                    Ok(Some(HitView { id, record: state::with_id(t, rec, id) }))
                },
            }
        },
    }
}

/// The hits among the first candidates, at most `top_k`.
pub open spec fn candidate_hits(
    st: &State,
    t: TableView,
    ids: Seq<Seq<char>>,
    filter: Option<RecordView>,
    top_k: usize,
    n: int,
) -> Result<Seq<KeptView>, ErrorView>
    decreases n,
{
    if n <= 0 {
        Ok(Seq::empty())
    } else {
        match candidate_hits(st, t, ids, filter, top_k, n - 1) {
            Err(e) => Err(e),
            Ok(done) => if done.len() >= top_k {
                Ok(done)
            } else {
                match candidate_hit(st, t, ids[n - 1], filter) {
                    Err(e) => Err(e),
                    Ok(None) => Ok(done),
                    Ok(Some(hit)) => Ok(done.push(KeptView { at: n - 1, hit })),
                }
            },
        }
    }
}

proof fn lemma_candidates_prefix(
    st: &State,
    t: TableView,
    ids: Seq<Seq<char>>,
    filter: Option<RecordView>,
    top_k: usize,
    n: int,
)
    requires
        0 <= n <= ids.len(),
    ensures
        ({
            let whole = candidate_hits(st, t, ids, filter, top_k, ids.len() as int);
            match candidate_hits(st, t, ids, filter, top_k, n) {
                Err(e) => whole == Err::<Seq<KeptView>, ErrorView>(e),
                Ok(done) => done.len() >= top_k ==> whole == Ok::<Seq<KeptView>, ErrorView>(done),
            }
        }),
    decreases ids.len() - n,
{
    if n < ids.len() {
        lemma_candidates_prefix(st, t, ids, filter, top_k, n + 1);
    }
}

pub open spec fn kept_result(r: Result<Vec<Kept>, Error>) -> Result<Seq<KeptView>, ErrorView> {
    match r {
        Ok(s) => Ok(model::views(s@)),
        Err(e) => Err(e@),
    }
}

impl State {
    fn as_candidate(&self, schema: &TableSchema, id: &str, filter: Option<&Record>) -> (r: Result<Option<Hit>, Error>)
        requires
            self.wf(),
            filter matches Some(f) ==> f.wf(),
        ensures
            match candidate_hit(self, schema@, id@, record_view(filter)) {
                Err(e) => r is Err && r->Err_0@ == e,
                Ok(None) => r matches Ok(None),
                Ok(Some(h)) => r matches Ok(Some(hit)) && hit@ == h && hit.record.wf(),
            },
    {
        let entry = match self.latest_owned(schema.name.as_str(), id) {
            Err(e) => {
                return Err(e);
            },
            Ok(None) => {
                return Ok(None);
            },
            Ok(Some(v)) => v,
        };
        if entry.is_tombstone() {
            return Ok(None);
        }
        let rec = match read_record_kind(&self.blobs, &self.segments, &entry.kind) {
            Err(e) => {
                return Err(e);
            },
            Ok(rec) => rec,
        };
        match filter {
            Some(f) => {
                if !passes_filter(&rec, id, f) {
                    return Ok(None);
                }
            },
            None => {},
        }
        Ok(Some(Hit { id: id.to_owned(), record: add_id(schema, rec, id) }))
    }

    /// The hits among candidates, nearest first, at most `top_k`.
    pub fn keep_candidates(&self, schema: &TableSchema, ids: &Vec<String>, filter: Option<&Record>, top_k: usize) -> (r: Result<
        Vec<Kept>,
        Error,
    >)
        requires
            self.wf(),
            filter matches Some(f) ==> f.wf(),
            top_k > 0,
        ensures
            kept_result(r) == candidate_hits(
                self,
                schema@,
                model::views(ids@),
                record_view(filter),
                top_k,
                ids@.len() as int,
            ),
            r matches Ok(s) ==> kept_wf(s@),
    {
        let ghost names = model::views(ids@);
        let ghost f = record_view(filter);
        let ghost t = schema@;
        let mut out: Vec<Kept> = Vec::new();
        let mut i: usize = 0;
        assert(model::views(out@) =~= Seq::<KeptView>::empty());
        while i < ids.len()
            invariant
                self.wf(),
                filter matches Some(f) ==> f.wf(),
                t == schema@,
                f == record_view(filter),
                names == model::views(ids@),
                i <= ids@.len(),
                out@.len() < top_k,
                candidate_hits(self, t, names, f, top_k, i as int) == Ok::<Seq<KeptView>, ErrorView>(model::views(out@)),
                kept_wf(out@),
            decreases ids@.len() - i,
        {
            let ghost before = model::views(out@);
            proof {
                assert(names[i as int] == ids@[i as int]@);
                lemma_candidates_prefix(self, t, names, f, top_k, i + 1);
            }
            match self.as_candidate(schema, ids[i].as_str(), filter) {
                Err(e) => {
                    return Err(e);
                },
                Ok(None) => {},
                Ok(Some(hit)) => {
                    let kept = Kept { at: i, hit };
                    out.push(kept);
                    assert(model::views(out@) =~= before.push(kept@));
                    if out.len() >= top_k {
                        return Ok(out);
                    }
                },
            }
            i = i + 1;
        }
        Ok(out)
    }
}

impl VectorSearch {
    /// How widely the graph is searched for the candidates.
    pub fn width(&self) -> (r: usize)
        ensures
            r == larger(self.ef as int, self.fetch as int),
    {
        max_of(self.ef, self.fetch)
    }

    /// Whether so many hits are enough, or no more candidates can be had; else
    /// more candidates are to be fetched.
    pub fn settle(&mut self, hits: usize) -> (done: bool)
        ensures
            done == (hits >= old(self).top_k || old(self).fetch >= old(self).limit),
            done ==> *final(self) == *old(self),
            !done ==> *final(self) == (VectorSearch {
                fetch: smaller(record::capped(old(self).fetch * 4), old(self).limit as int) as usize,
                ..*old(self)
            }),
    {
        if hits >= self.top_k || self.fetch >= self.limit {
            return true;
        }
        self.fetch = min_of(times(self.fetch, 4), self.limit);
        false
    }
}

/// A search comes to an end: a round that is not the last fetches more
/// candidates than the one before.
pub proof fn lemma_search_ends(before: VectorSearch, after: VectorSearch)
    requires
        0 < before.fetch < before.limit,
        after == (VectorSearch { fetch: smaller(record::capped(before.fetch * 4), before.limit as int) as usize, ..before }),
    ensures
        before.fetch < after.fetch <= after.limit,
{
}

// ---- Searching by both ------------------------------------------------------

/// How many hits each ranking of a combined search is asked for; none where
/// nothing is looked for.
pub open spec fn hybrid_plan(any: bool, top_k: usize, working: usize) -> Result<Option<int>, ErrorView> {
    let capacity = at_least_one((working / 128) as int);
    if !any {
        Err(ErrorView::InvalidArgument("hybrid search needs a text query, a vector, or both"@))
    } else if top_k == 0 {
        Ok(None)
    } else if top_k > capacity {
        Err(
            ErrorView::MemoryLimit(
                "hybrid top_k="@ + text::decimal(top_k as nat) + " exceeds its per-query capacity "@ + text::decimal(
                    capacity as nat,
                ),
            ),
        )
    } else {
        Ok(Some(smaller(larger(record::capped(top_k * 4), 50), capacity)))
    }
}

pub fn plan_hybrid(text: bool, vector: bool, top_k: usize, working_bytes: usize) -> (r: Result<Option<usize>, Error>)
    ensures
        match hybrid_plan(text || vector, top_k, working_bytes) {
            Err(e) => r is Err && r->Err_0@ == e,
            Ok(None) => r matches Ok(None),
            Ok(Some(n)) => r matches Ok(Some(k)) && k == n,
        },
{
    if !text && !vector {
        return Err(invalid("hybrid search needs a text query, a vector, or both"));
    }
    if top_k == 0 {
        return Ok(None);
    }
    let capacity: usize = candidate_capacity(working_bytes, 128);
    if top_k > capacity {
        let a = decimal_text(top_k as u64);
        let b = decimal_text(capacity as u64);
        return Err(
            Error::MemoryLimit(
                "hybrid top_k=".to_owned().concat(a.as_str()).concat(" exceeds its per-query capacity ").concat(b.as_str()),
            ),
        );
    }
    Ok(Some(min_of(max_of(times(top_k, 4), 50), capacity)))
}

/// What the rankings say of one record: its places in them, in the order in
/// which they were added, and the record as the first one gave it.
pub struct Standing {
    pub ranks: Vec<usize>,
    pub record: Record,
}

#[verifier::ext_equal]
pub struct StandingView {
    pub ranks: Seq<usize>,
    pub record: RecordView,
}

impl View for Standing {
    type V = StandingView;

    open spec fn view(&self) -> StandingView {
        StandingView { ranks: self.ranks@, record: self.record@ }
    }
}

fn copy_ranks(v: &Vec<usize>) -> (r: Vec<usize>)
    ensures
        r@ == v@,
{
    let mut out: Vec<usize> = Vec::new();
    let mut i: usize = 0;
    while i < v.len()
        invariant
            i <= v@.len(),
            out@ == v@.subrange(0, i as int),
        decreases v@.len() - i,
    {
        out.push(v[i]);
        assert(out@ =~= v@.subrange(0, i + 1));
        i = i + 1;
    }
    assert(v@.subrange(0, i as int) =~= v@);
    out
}

impl Datum for Standing {
    open spec fn valid(&self) -> bool {
        self.record.wf()
    }

    fn duplicate(&self) -> (r: Self) {
        let r = Standing { ranks: copy_ranks(&self.ranks), record: self.record.duplicate_map() };
        assert(r@ =~= self@);
        r
    }
}

/// The standings with the first hits of a ranking added.
pub open spec fn fused(m: Map<Seq<u8>, StandingView>, hits: Seq<HitView>, n: int) -> Map<Seq<u8>, StandingView>
    decreases n,
{
    if n <= 0 {
        m
    } else {
        let rest = fused(m, hits, n - 1);
        let key = encode_utf8(hits[n - 1].id);
        let rank = (n - 1) as usize;
        if rest.contains_key(key) {
            rest.insert(key, StandingView { ranks: rest[key].ranks.push(rank), ..rest[key] })
        } else {
            rest.insert(key, StandingView { ranks: seq![rank], record: hits[n - 1].record })
        }
    }
}

/// Add a ranking to the standings.
pub fn fuse(standings: &mut CowMap<String, Standing>, hits: &Vec<Hit>)
    requires
        old(standings).wf(),
        find::hits_wf(hits@),
    ensures
        final(standings).wf(),
        final(standings)@ == fused(old(standings)@, model::views(hits@), hits@.len() as int),
{
    let ghost m = standings@;
    let ghost all = model::views(hits@);
    let mut i: usize = 0;
    while i < hits.len()
        invariant
            i <= hits@.len(),
            all == model::views(hits@),
            find::hits_wf(hits@),
            standings.wf(),
            standings@ == fused(m, all, i as int),
        decreases hits@.len() - i,
    {
        let ghost before = standings@;
        let hit = &hits[i];
        let ghost key = encode_utf8(hit.id@);
        assert(all[i as int] == hit@);
        let known: Option<Standing> = match standings.get(hit.id.as_str().as_bytes()) {
            Some(s) => Some(s.duplicate()),
            None => None,
        };
        match known {
            Some(s) => {
                let mut s = s;
                s.ranks.push(i);
                assert(s@ =~= (StandingView { ranks: before[key].ranks.push(i), ..before[key] }));
                let _ = standings.insert(hit.id.clone(), s);
            },
            None => {
                let mut ranks: Vec<usize> = Vec::new();
                ranks.push(i);
                let s = Standing { ranks, record: hit.record.duplicate_map() };
                assert(s@ =~= (StandingView { ranks: seq![i], record: hit@.record }));
                let _ = standings.insert(hit.id.clone(), s);
            },
        }
        i = i + 1;
    }
}

/// Where a single-precision number stands in the total order of all such
/// numbers, from its bits: negative ones are ordered the other way round.
pub open spec fn total_place(bits: u32) -> int {
    if bits >= 0x8000_0000 {
        0x7fff_ffff - bits
    } else {
        bits as int
    }
}

/// Whether the first of two scores stands above the second.
pub fn scores_above(a: u32, b: u32) -> (r: bool)
    ensures
        r == (total_place(a) > total_place(b)),
{
    if a >= 0x8000_0000 {
        b >= 0x8000_0000 && a < b
    } else {
        b >= 0x8000_0000 || a > b
    }
}

/// Positions with one put behind those whose scores are not below its own.
pub open spec fn score_placed(s: Seq<usize>, scores: Seq<u32>, i: usize) -> Seq<usize>
    decreases s.len(),
{
    if s.len() == 0 {
        seq![i]
    } else if total_place(scores[i as int]) > total_place(scores[s.last() as int]) {
        score_placed(s.drop_last(), scores, i).push(s.last())
    } else {
        s.push(i)
    }
}

/// The first positions, the best score first; of equal ones the earlier first.
pub open spec fn best_first(scores: Seq<u32>, n: int) -> Seq<usize>
    decreases n,
{
    if n <= 0 {
        Seq::empty()
    } else {
        score_placed(best_first(scores, n - 1), scores, (n - 1) as usize)
    }
}

/// Scores of positions do not rise from one to the next.
pub open spec fn never_rises(scores: Seq<u32>, s: Seq<usize>) -> bool {
    forall|i: int, j: int| 0 <= i < j < s.len() ==> total_place(scores[(#[trigger] s[i]) as int]) >= total_place(
        scores[(#[trigger] s[j]) as int],
    )
}

proof fn lemma_score_placed(s: Seq<usize>, scores: Seq<u32>, i: usize)
    ensures
        score_placed(s, scores, i).len() == s.len() + 1,
        forall|x: usize| #[trigger] score_placed(s, scores, i).contains(x) <==> s.contains(x) || x == i,
        never_rises(scores, s) ==> never_rises(scores, score_placed(s, scores, i)),
    decreases s.len(),
{
    let r = score_placed(s, scores, i);
    if s.len() == 0 {
        assert(r[0] == i);
    } else if total_place(scores[i as int]) > total_place(scores[s.last() as int]) {
        let head = s.drop_last();
        let mid = score_placed(head, scores, i);
        lemma_score_placed(head, scores, i);
        assert forall|x: usize| #[trigger] r.contains(x) <==> s.contains(x) || x == i by {
            if r.contains(x) {
                let k = r.index_of(x);
                if k < mid.len() {
                    assert(mid[k] == x);
                    assert(mid.contains(x));
                    if head.contains(x) {
                        assert(s[head.index_of(x)] == x);
                    }
                } else {
                    assert(s[s.len() - 1] == x);
                }
            }
            if s.contains(x) || x == i {
                if x == i || head.contains(x) {
                    assert(mid.contains(x));
                    let k = mid.index_of(x);
                    assert(r[k] == x);
                } else {
                    let k = s.index_of(x);
                    if k < head.len() {
                        assert(head[k] == x);
                    }
                    assert(r[mid.len() as int] == x);
                }
            }
        }
        if never_rises(scores, s) {
            assert(never_rises(scores, head)) by {
                assert forall|a: int, b: int| 0 <= a < b < head.len() implies total_place(scores[(#[trigger] head[a]) as int])
                    >= total_place(scores[(#[trigger] head[b]) as int]) by {
                    assert(head[a] == s[a] && head[b] == s[b]);
                }
            }
            assert forall|a: int, b: int| 0 <= a < b < r.len() implies total_place(scores[(#[trigger] r[a]) as int]) >= total_place(
                scores[(#[trigger] r[b]) as int],
            ) by {
                if b < mid.len() {
                    assert(r[a] == mid[a] && r[b] == mid[b]);
                } else {
                    assert(r[a] == mid[a]);
                    assert(mid.contains(mid[a]));
                    if mid[a] != i {
                        let k = head.index_of(mid[a]);
                        assert(s[k] == mid[a]);
                        assert(s[s.len() - 1] == r[b]);
                    }
                }
            }
        }
    } else {
        assert forall|x: usize| #[trigger] r.contains(x) <==> s.contains(x) || x == i by {
            if r.contains(x) {
                let k = r.index_of(x);
                if k < s.len() {
                    assert(s[k] == x);
                }
            }
            if s.contains(x) {
                assert(r[s.index_of(x)] == x);
            }
            if x == i {
                assert(r[s.len() as int] == x);
            }
        }
        if never_rises(scores, s) {
            assert forall|a: int, b: int| 0 <= a < b < r.len() implies total_place(scores[(#[trigger] r[a]) as int]) >= total_place(
                scores[(#[trigger] r[b]) as int],
            ) by {
                if b < s.len() {
                    assert(r[a] == s[a] && r[b] == s[b]);
                } else if a < s.len() - 1 {
                    assert(r[a] == s[a] && s[s.len() - 1] == s.last());
                    assert(total_place(scores[s[a] as int]) >= total_place(scores[s[s.len() - 1] as int]));
                }
            }
        }
    }
}

/// The order of scores lists every position once, and the best come first.
pub proof fn lemma_best_first(scores: Seq<u32>, n: int)
    requires
        0 <= n <= scores.len() <= usize::MAX,
    ensures
        best_first(scores, n).len() == n,
        forall|x: usize| #[trigger] best_first(scores, n).contains(x) <==> x < n,
        never_rises(scores, best_first(scores, n)),
    decreases n,
{
    if n > 0 {
        lemma_best_first(scores, n - 1);
        lemma_score_placed(best_first(scores, n - 1), scores, (n - 1) as usize);
    }
}

/// Put the positions of scores in order: the best first, and of equal ones the
/// earlier first.
pub fn rank_scores(scores: &Vec<u32>) -> (r: Vec<usize>)
    ensures
        r@ == best_first(scores@, scores@.len() as int),
{
    let mut out: Vec<usize> = Vec::new();
    let mut n: usize = 0;
    while n < scores.len()
        invariant
            n <= scores@.len(),
            out@ == best_first(scores@, n as int),
        decreases scores@.len() - n,
    {
        let ghost s = out@;
        proof {
            lemma_best_first(scores@, n as int);
            assert forall|k: int| 0 <= k < s.len() implies (#[trigger] s[k]) < n by {
                assert(s.contains(s[k]));
            }
        }
        let mut at: usize = out.len();
        let mut going: bool = true;
        assert(s.subrange(0, s.len() as int) =~= s);
        assert(score_placed(s, scores@, n) =~= score_placed(s.subrange(0, at as int), scores@, n) + s.subrange(
            at as int,
            s.len() as int,
        ));
        while going && at > 0
            invariant
                n < scores@.len(),
                at <= out@.len() == s.len(),
                out@ == s,
                forall|k: int| 0 <= k < s.len() ==> (#[trigger] s[k]) < n,
                going ==> score_placed(s, scores@, n) == score_placed(s.subrange(0, at as int), scores@, n) + s.subrange(
                    at as int,
                    s.len() as int,
                ),
                !going ==> score_placed(s, scores@, n) == s.subrange(0, at as int).push(n) + s.subrange(
                    at as int,
                    s.len() as int,
                ),
            decreases at, (if going { 1int } else { 0int }),
        {
            let ghost front = s.subrange(0, at as int);
            proof {
                assert(front.drop_last() =~= s.subrange(0, at - 1));
                assert(front.last() == s[at - 1]);
                assert(s[at - 1] < n);
            }
            if scores_above(scores[n], scores[out[at - 1]]) {
                assert(score_placed(s.subrange(0, at - 1), scores@, n).push(front.last()) + s.subrange(at as int, s.len() as int)
                    =~= score_placed(s.subrange(0, at - 1), scores@, n) + s.subrange(at - 1, s.len() as int));
                at = at - 1;
            } else {
                going = false;
            }
        }
        assert(score_placed(s, scores@, n) == s.subrange(0, at as int).push(n) + s.subrange(at as int, s.len() as int)) by {
            if going {
                assert(s.subrange(0, 0) =~= Seq::<usize>::empty());
                assert(seq![n] =~= Seq::<usize>::empty().push(n));
            }
        }
        out.insert(at, n);
        assert(out@ =~= s.subrange(0, at as int).push(n) + s.subrange(at as int, s.len() as int));
        n = n + 1;
    }
    out
}

// ---- Vectors that wait ------------------------------------------------------

/// Whether vectors that were committed can be searched.
pub enum Indexing {
    Done,
    Wait,
    Failed(Error),
}

/// Whether a caller that waits for vectors has to go on waiting. A worker that
/// is gone with work left is reported.
pub fn indexing_state(backlog: u64, worker_alive: bool, worker_error: &Option<String>) -> (r: Indexing)
    ensures
        backlog == 0 ==> r is Done,
        backlog > 0 && worker_alive ==> r is Wait,
        backlog > 0 && !worker_alive ==> (r matches Indexing::Failed(e) && e@ == ErrorView::Io(
            match *worker_error {
                Some(m) => m@,
                None => "vector indexing worker stopped with pending work"@,
            },
        )),
{
    if backlog == 0 {
        return Indexing::Done;
    }
    if worker_alive {
        return Indexing::Wait;
    }
    Indexing::Failed(
        Error::Io(
            match worker_error {
                Some(m) => m.clone(),
                None => "vector indexing worker stopped with pending work".to_owned(),
            },
        ),
    )
}

} // verus!
