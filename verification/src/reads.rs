//! Scans over what a reader at a version sees.

use crate::bytes;
use crate::cow;
use crate::error::{table_not_found, Error, ErrorView};
use crate::levels;
use crate::model;
use crate::order::{Datum, OrderedKey};
use crate::pairs;
use crate::payload::{self, scan_payload_blob_refs};
use crate::primary;
use crate::record::{self, encoded_record_column_eq, Record, RecordView};
use crate::schema::{self, TableSchema, TableView};
use crate::segment::{self, payload_bytes};
use crate::state::{self, State};
use crate::value::{StoredView, Value, ValueView};
use crate::version::{self, VersionEntry, VersionView};
use crate::visit::{self, GroupView};
use vstd::prelude::*;
use vstd::utf8::*;

verus! {

/// The ids of a table are visited this many at a time.
pub const SCAN_CHUNK_ROWS: usize = 1024;

/// The rows that a scan keeps: those with a value in a column.
pub struct ScanFilter {
    pub column: String,
    pub value: Value,
}

#[verifier::ext_equal]
pub struct FilterView {
    pub column: Seq<char>,
    pub value: ValueView,
}

impl View for ScanFilter {
    type V = FilterView;

    open spec fn view(&self) -> FilterView {
        FilterView { column: self.column@, value: self.value@ }
    }
}

pub open spec fn filter_view(f: Option<&ScanFilter>) -> Option<FilterView> {
    match f {
        Some(f) => Some(f@),
        None => None,
    }
}

/// The place of a column in the schema.
pub open spec fn ordinal_of(t: TableView, column: Seq<char>) -> Option<usize> {
    match model::find(schema::column_names(t.columns), column) {
        Some(i) => Some(i as usize),
        None => None,
    }
}

impl State {
    /// Whether a scan keeps a version.
    pub open spec fn keeps(&self, t: TableView, v: VersionView, filter: Option<FilterView>) -> Result<bool, ErrorView> {
        match filter {
            None => Ok(true),
            Some(f) => match segment::payload_of(self.images(), v.kind) {
                Err(e) => Err(e),
                Ok(None) => Ok(false),
                Ok(Some(p)) => record::column_matches(p, encode_utf8(f.column), ordinal_of(t, f.column), f.value, self.blobs@),
            },
        }
    }

    /// Whether a scan at `max` finds the record.
    pub open spec fn is_hit(&self, t: TableView, id: Seq<u8>, max: u64, filter: Option<FilterView>) -> bool {
        &&& self.shows(t.name, id, max)
        &&& self.keeps(t, self.visible(t.name, id, max)->Ok_0->0, filter) == Ok::<bool, ErrorView>(true)
    }
}

/// A row that a scan found: the id and the version.
pub struct Found {
    pub id: String,
    pub entry: VersionEntry,
}

#[verifier::ext_equal]
pub struct FoundView {
    pub id: Seq<char>,
    pub entry: VersionView,
}

impl View for Found {
    type V = FoundView;

    open spec fn view(&self) -> FoundView {
        FoundView { id: self.id@, entry: self.entry@ }
    }
}

pub open spec fn has_id(rows: Seq<FoundView>, id: Seq<u8>) -> bool {
    exists|i: int| 0 <= i < rows.len() && encode_utf8((#[trigger] rows[i]).id) == id
}

/// Whether an id stands after the last one that a scan looked at.
pub open spec fn past_last(last: Option<Seq<char>>, id: Seq<u8>) -> bool {
    match last {
        Some(l) => bytes::lex_lt(encode_utf8(l), id),
        None => true,
    }
}

pub open spec fn text_view(s: Option<String>) -> Option<Seq<char>> {
    match s {
        Some(s) => Some(s@),
        None => None,
    }
}

pub open spec fn str_view(s: Option<&str>) -> Option<Seq<char>> {
    match s {
        Some(s) => Some(s@),
        None => None,
    }
}

impl State {
    pub open spec fn is_found(&self, t: TableView, after: Option<Seq<char>>, max: u64, filter: Option<FilterView>, f: FoundView) -> bool {
        &&& self.is_hit(t, encode_utf8(f.id), max, filter)
        &&& past_last(after, encode_utf8(f.id))
        &&& self.visible(t.name, encode_utf8(f.id), max) == Ok::<Option<VersionView>, Seq<char>>(Some(f.entry))
    }

    pub open spec fn rows_found(
        &self,
        t: TableView,
        after: Option<Seq<char>>,
        max: u64,
        filter: Option<FilterView>,
        rows: Seq<FoundView>,
    ) -> bool {
        &&& forall|i: int| 0 <= i < rows.len() ==> self.is_found(t, after, max, filter, #[trigger] rows[i])
        &&& forall|i: int, j: int| 0 <= i < j < rows.len() ==> bytes::lex_lt(
            encode_utf8((#[trigger] rows[i]).id),
            encode_utf8((#[trigger] rows[j]).id),
        )
    }

    /// Every hit after `after` is among the rows or stands past `last`.
    pub open spec fn covers(
        &self,
        t: TableView,
        after: Option<Seq<char>>,
        max: u64,
        filter: Option<FilterView>,
        rows: Seq<FoundView>,
        last: Option<Seq<char>>,
    ) -> bool {
        forall|id: Seq<u8>|
            #[trigger] self.is_hit(t, id, max, filter) && past_last(after, id) ==> has_id(rows, id) || past_last(last, id)
    }

    /// `rows` are the first hits after `after`, at most `limit`; `last` is the
    /// last id that was looked at.
    pub open spec fn is_prepared(
        &self,
        t: TableView,
        after: Option<Seq<char>>,
        max: u64,
        limit: int,
        filter: Option<FilterView>,
        rows: Seq<FoundView>,
        last: Option<Seq<char>>,
    ) -> bool {
        &&& rows.len() <= limit
        &&& self.rows_found(t, after, max, filter, rows)
        &&& rows.len() > 0 ==> last is Some && bytes::lex_le(encode_utf8(rows.last().id), encode_utf8(last->0))
        &&& if rows.len() == limit {
            last is Some && self.covers(t, after, max, filter, rows, last)
        } else {
            forall|id: Seq<u8>| #[trigger] self.is_hit(t, id, max, filter) && past_last(after, id) ==> has_id(rows, id)
        }
    }

    /// What can go wrong while a scan looks for rows.
    pub open spec fn is_scan_error(&self, t: TableView, max: u64, filter: Option<FilterView>, e: ErrorView) -> bool {
        ||| exists|key: Seq<u8>, m: Seq<char>| #[trigger] self.index.is_fault(encode_utf8(t.name), key, m) && e == ErrorView::Corrupt(m)
        ||| exists|id: Seq<u8>| #[trigger] self.shows(t.name, id, max) && self.keeps(t, self.visible(t.name, id, max)->Ok_0->0, filter)
            == Err::<bool, ErrorView>(e)
    }

    /// The walk that follows the rows found so far comes to a record that cannot
    /// be read, before it listed as many as are still missing.
    pub open spec fn walk_stops(
        &self,
        t: TableView,
        after: Option<Seq<char>>,
        max: u64,
        limit: int,
        filter: Option<FilterView>,
        rows: Seq<FoundView>,
        last: Option<Seq<char>>,
        groups: Seq<GroupView>,
        key: Seq<u8>,
        m: Seq<char>,
    ) -> bool {
        &&& rows.len() < limit
        &&& self.rows_found(t, after, max, filter, rows)
        &&& self.covers(t, after, max, filter, rows, last)
        &&& last == after || (last matches Some(l) && past_last(after, encode_utf8(l)))
        &&& self.index.stops_at(encode_utf8(t.name), last_bytes(last), Some((limit - rows.len()) as usize), groups, key, m)
    }

    /// The filter fails on a record that stands right behind the rows found so
    /// far.
    pub open spec fn filter_stops(
        &self,
        t: TableView,
        after: Option<Seq<char>>,
        max: u64,
        limit: int,
        filter: Option<FilterView>,
        rows: Seq<FoundView>,
        id: Seq<u8>,
        e: ErrorView,
    ) -> bool {
        &&& rows.len() < limit
        &&& self.rows_found(t, after, max, filter, rows)
        &&& self.shows(t.name, id, max)
        &&& past_last(after, id)
        &&& self.keeps(t, self.visible(t.name, id, max)->Ok_0->0, filter) == Err::<bool, ErrorView>(e)
        &&& forall|other: Seq<u8>|
            #[trigger] self.is_hit(t, other, max, filter) && past_last(after, other) ==> has_id(rows, other) || bytes::lex_le(id, other)
    }

    /// What stops a scan for the first rows after `after`: something that it comes
    /// to before it has `limit` rows.
    pub open spec fn scan_stops(&self, t: TableView, after: Option<Seq<char>>, max: u64, limit: int, filter: Option<FilterView>, e: ErrorView) -> bool {
        ||| exists|rows: Seq<FoundView>, last: Option<Seq<char>>, groups: Seq<GroupView>, key: Seq<u8>, m: Seq<char>|
            #[trigger] self.walk_stops(t, after, max, limit, filter, rows, last, groups, key, m) && e == ErrorView::Corrupt(m)
        ||| exists|rows: Seq<FoundView>, id: Seq<u8>| #[trigger] self.filter_stops(t, after, max, limit, filter, rows, id, e)
    }

    /// What a scan knows while it looks at one list of records.
    #[verifier::opaque]
    spec fn looks_at(
        &self,
        t: TableView,
        after: Option<Seq<char>>,
        max: u64,
        filter: Option<FilterView>,
        start: Seq<FoundView>,
        last: Option<Seq<char>>,
        limit: usize,
        groups: Seq<GroupView>,
    ) -> bool {
        &&& self.covers(t, after, max, filter, start, last)
        &&& self.index.is_listing(encode_utf8(t.name), last_bytes(last), Some(limit), groups)
    }

    proof fn lemma_looks_at(
        &self,
        t: TableView,
        after: Option<Seq<char>>,
        max: u64,
        filter: Option<FilterView>,
        start: Seq<FoundView>,
        last: Option<Seq<char>>,
        limit: usize,
        groups: Seq<GroupView>,
    )
        requires
            self.covers(t, after, max, filter, start, last),
            self.index.is_listing(encode_utf8(t.name), last_bytes(last), Some(limit), groups),
        ensures
            self.looks_at(t, after, max, filter, start, last, limit, groups),
    {
        reveal(State::looks_at);
    }

    proof fn lemma_filter_stops(
        &self,
        t: TableView,
        after: Option<Seq<char>>,
        max: u64,
        limit: int,
        filter: Option<FilterView>,
        start: Seq<FoundView>,
        rows: Seq<FoundView>,
        last: Option<Seq<char>>,
        chunk: usize,
        groups: Seq<GroupView>,
        i: int,
        e: ErrorView,
    )
        requires
            self.looks_at(t, after, max, filter, start, last, chunk, groups),
            0 <= i < groups.len(),
            rows.len() < limit,
            self.rows_found(t, after, max, filter, rows),
            start.is_prefix_of(rows),
            forall|q: int| 0 <= q < i && self.is_hit(t, (#[trigger] groups[q]).id, max, filter) ==> has_id(rows, groups[q].id),
            self.shows(t.name, groups[i].id, max),
            past_last(after, groups[i].id),
            self.keeps(t, self.visible(t.name, groups[i].id, max)->Ok_0->0, filter) == Err::<bool, ErrorView>(e),
        ensures
            self.scan_stops(t, after, max, limit, filter, e),
    {
        reveal(State::looks_at);
        let id = groups[i].id;
        let tb = encode_utf8(t.name);
        assert forall|other: Seq<u8>|
            #[trigger] self.is_hit(t, other, max, filter) && past_last(after, other) implies has_id(rows, other) || bytes::lex_le(
            id,
            other,
        ) by {
            if has_id(start, other) {
                let w = choose|w: int| 0 <= w < start.len() && encode_utf8((#[trigger] start[w]).id) == other;
                assert(rows[w] == start[w]);
            } else {
                assert(past_last(last, other));
                lemma_versions_held(self, t.name, other, max);
                assert(self.index.has_record(tb, other));
                assert(visit::id_wanted(last_bytes(last), other));
                if visit::lists_id(groups, other) {
                    let q = choose|q: int| 0 <= q < groups.len() && (#[trigger] groups[q]).id == other;
                    if q > i {
                        assert(bytes::lex_lt(groups[i].id, groups[q].id));
                    }
                } else {
                    let k = groups.len() - 1;
                    if i < k {
                        assert(bytes::lex_lt(groups[i].id, groups[k].id));
                        bytes::lemma_lex_transitive(id, groups[k].id, other);
                    }
                }
            }
        }
        assert(self.filter_stops(t, after, max, limit, filter, rows, id, e));
    }

    proof fn lemma_walk_stops(
        &self,
        t: TableView,
        after: Option<Seq<char>>,
        max: u64,
        limit: int,
        filter: Option<FilterView>,
        rows: Seq<FoundView>,
        last: Option<Seq<char>>,
        chunk: usize,
        e: ErrorView,
    )
        requires
            rows.len() + chunk <= limit <= usize::MAX,
            chunk > 0,
            self.rows_found(t, after, max, filter, rows),
            self.covers(t, after, max, filter, rows, last),
            stands_behind(after, last),
            exists|groups: Seq<GroupView>, key: Seq<u8>, m: Seq<char>|
                #[trigger] self.index.stops_at(encode_utf8(t.name), last_bytes(last), Some(chunk), groups, key, m) && e
                    == ErrorView::Corrupt(m),
        ensures
            self.scan_stops(t, after, max, limit, filter, e),
    {
        reveal(stands_behind);
        let (groups, key, m) = choose|groups: Seq<GroupView>, key: Seq<u8>, m: Seq<char>|
            #[trigger] self.index.stops_at(encode_utf8(t.name), last_bytes(last), Some(chunk), groups, key, m) && e
                == ErrorView::Corrupt(m);
        assert(self.walk_stops(t, after, max, limit, filter, rows, last, groups, key, m));
    }
}

/// A scan stands where it began or at an id behind that.
#[verifier::opaque]
spec fn stands_behind(after: Option<Seq<char>>, last: Option<Seq<char>>) -> bool {
    last == after || (last matches Some(l) && past_last(after, encode_utf8(l)))
}

proof fn lemma_stands_behind(after: Option<Seq<char>>, last: Option<Seq<char>>)
    requires
        last == after || (last matches Some(l) && past_last(after, encode_utf8(l))),
    ensures
        stands_behind(after, last),
{
    reveal(stands_behind);
}

pub open spec fn last_bytes(last: Option<Seq<char>>) -> Option<Seq<u8>> {
    match last {
        Some(l) => Some(encode_utf8(l)),
        None => None,
    }
}

/// What stands under a key that has versions is held by the index.
pub proof fn lemma_versions_held(st: &State, table: Seq<char>, id: Seq<u8>, max: u64)
    requires
        st.shows(table, id, max),
    ensures
        st.index.has_record(encode_utf8(table), id),
{
    let key = version::key_of(encode_utf8(table), id);
    let s = st.versions(table, id)->Ok_0;
    let runs = st.index.runs@;
    primary::lemma_newest_of(s, max);
    levels::lemma_run_entries(runs, key);
    let v = st.visible(table, id, max)->Ok_0->0;
    let i = s.index_of(v);
    let a = primary::run_entries(runs, key)->Ok_0;
    if i < a.len() {
        assert(a[i] == v);
        assert(a.contains(v));
        let value = choose|value: Seq<u8>| #[trigger] levels::runs_hold(runs, (key, value)) && levels::decodes_to(value, v);
        let q = choose|q: int| 0 <= q < runs.len() && #[trigger] crate::paged::holds_row(runs[q].index.rows(), (key, value));
        let rows = runs[q].index.rows();
        let r = choose|r: int| 0 <= r < rows.len() && #[trigger] rows[r] == (key, value);
        assert(rows[r].0 == key);
        assert(crate::paged::holds_key(runs[q].index.rows(), key));
    }
}

/// The newest version of a group that is not past `max` is the one that counts.
pub proof fn lemma_group_current(g: Seq<VersionView>, s: Seq<VersionView>, p: int, max: u64)
    requires
        primary::is_group(g, s),
        primary::consistent(s),
        -1 <= p < g.len(),
        p >= 0 ==> g[p].version <= max,
        forall|i: int| p < i < g.len() ==> (#[trigger] g[i]).version > max,
    ensures
        primary::newest_of(s, max) == (if p >= 0 {
            Some(g[p])
        } else {
            None
        }),
{
    primary::lemma_newest_of(s, max);
    match primary::newest_of(s, max) {
        Some(v) => {
            let k = s.index_of(v);
            assert(primary::has_version(g, s[k].version));
            let j = choose|j: int| 0 <= j < g.len() && (#[trigger] g[j]).version == v.version;
            assert(j <= p);
            assert(s.contains(g[p]));
            let m = s.index_of(g[p]);
            assert(s[m].version <= v.version);
            if j < p {
                assert(g[j].version < g[p].version);
            }
            assert(s[m].version == s[k].version);
        },
        None => {
            if p >= 0 {
                assert(s.contains(g[p]));
                let m = s.index_of(g[p]);
                assert(s[m].version > max);
            }
        },
    }
}

/// The version of a group that counts at `max`, of a table that began after
/// `epoch`.
fn group_current(versions: &Vec<VersionEntry>, max: u64, epoch: u64, Ghost(s): Ghost<Seq<VersionView>>) -> (r: Option<&VersionEntry>)
    requires
        primary::is_group(model::views(versions@), s),
        primary::consistent(s),
    ensures
        r matches Some(v) ==> state::current(s, max, epoch) == Some(v@),
        r is None ==> state::current(s, max, epoch) is None,
{
    let ghost g = model::views(versions@);
    let mut i: usize = versions.len();
    while i > 0
        invariant
            i <= versions@.len(),
            g == model::views(versions@),
            primary::is_group(g, s),
            primary::consistent(s),
            forall|j: int| i <= j < g.len() ==> (#[trigger] g[j]).version > max,
        decreases i,
    {
        assert(g[i - 1] == versions@[i - 1]@);
        if versions[i - 1].version <= max {
            proof {
                lemma_group_current(g, s, i - 1, max);
            }
            if versions[i - 1].version > epoch {
                return Some(&versions[i - 1]);
            } else {
                return None;
            }
        }
        i = i - 1;
    }
    proof {
        lemma_group_current(g, s, -1, max);
    }
    None
}

impl State {
    /// Whether a scan keeps a version.
    fn filter_keeps(&self, v: &VersionEntry, filter: Option<&ScanFilter>, ordinal: Option<usize>, Ghost(t): Ghost<TableView>) -> (r:
        Result<bool, Error>)
        requires
            self.blobs.wf(),
            filter matches Some(f) ==> ordinal == ordinal_of(t, f.column@),
        ensures
            match self.keeps(t, v@, filter_view(filter)) {
                Ok(b) => r is Ok && r->Ok_0 == b,
                Err(e) => r is Err && r->Err_0@ == e,
            },
    {
        match filter {
            None => Ok(true),
            Some(f) => match payload_bytes(&self.segments, &v.kind) {
                Err(e) => Err(e),
                Ok(None) => Ok(false),
                Ok(Some(p)) => encoded_record_column_eq(p.as_slice(), f.column.as_str(), ordinal, &f.value, &self.blobs),
            },
        }
    }

    /// How much of the index there is past an id of a table.
    spec fn rows_ahead(&self, table: Seq<u8>, cursor: Option<Seq<char>>) -> nat {
        match cursor {
            Some(c) => self.index.ahead(version::key_of(table, encode_utf8(c)), false),
            None => self.index.ahead(version::table_prefix(table), true),
        }
    }

    proof fn lemma_rows_ahead(&self, table: Seq<u8>, cursor: Option<Seq<char>>, next: Seq<char>)
        requires
            self.index.wf(),
            self.index.has_record(table, encode_utf8(next)),
            past_last(cursor, encode_utf8(next)),
        ensures
            self.rows_ahead(table, Some(next)) < self.rows_ahead(table, cursor),
    {
        let key = version::key_of(table, encode_utf8(next));
        match cursor {
            Some(c) => {
                version::lemma_key_order(table, encode_utf8(c), encode_utf8(next));
                self.index.lemma_ahead(version::key_of(table, encode_utf8(c)), false, key);
            },
            None => {
                let p = version::table_prefix(table);
                assert(key.subrange(0, p.len() as int) =~= p);
                bytes::lemma_prefix_le(p, key);
                self.index.lemma_ahead(p, true, key);
            },
        }
    }

    /// The first rows after `after` that a reader at `max` sees and the filter
    /// keeps, at most `limit`, and the last id that was looked at.
    #[verifier::rlimit(100)]
    fn find_rows(&self, schema: &TableSchema, after: Option<&str>, max: u64, limit: usize, filter: Option<&ScanFilter>) -> (r: Result<
        (Vec<Found>, Option<String>),
        Error,
    >)
        requires
            self.wf(),
            self.versions_ok(),
            self.table_view(schema@.name) == Some(schema@),
            limit > 0,
        ensures
            r matches Ok(found) ==> self.is_prepared(
                schema@,
                str_view(after),
                max,
                limit as int,
                filter_view(filter),
                model::views(found.0@),
                text_view(found.1),
            ),
            r matches Err(e) ==> self.is_scan_error(schema@, max, filter_view(filter), e@),
            r matches Err(e) ==> self.scan_stops(schema@, str_view(after), max, limit as int, filter_view(filter), e@),
    {
        let ghost t = schema@;
        let ghost fv = filter_view(filter);
        let ghost av = str_view(after);
        let ghost tb = encode_utf8(t.name);
        proof {
            self.lemma_table(t.name);
        }
        let ordinal: Option<usize> = match filter {
            Some(f) => schema.column_position(f.column.as_str()),
            None => None,
        };
        let mut rows: Vec<Found> = Vec::new();
        let mut cursor: Option<String> = match after {
            Some(a) => Some(a.to_owned()),
            None => None,
        };
        let mut looked: Option<String> = None;
        let mut done: bool = false;
        assert(model::views(rows@) =~= Seq::<FoundView>::empty());
        proof {
            lemma_stands_behind(av, text_view(cursor));
        }
        while rows.len() < limit && !done
            invariant
                self.wf(),
                self.versions_ok(),
                t == schema@,
                tb == encode_utf8(t.name),
                tb.len() <= u16::MAX,
                fv == filter_view(filter),
                av == str_view(after),
                self.table_view(t.name) == Some(t),
                filter matches Some(f) ==> ordinal == ordinal_of(t, f.column@),
                rows@.len() <= limit,
                self.rows_found(t, av, max, fv, model::views(rows@)),
                forall|i: int| 0 <= i < rows@.len() ==> !past_last(text_view(cursor), encode_utf8((#[trigger] model::views(rows@)[i]).id)),
                forall|id: Seq<u8>| #[trigger] past_last(text_view(cursor), id) ==> past_last(av, id),
                forall|id: Seq<u8>|
                    #[trigger] self.is_hit(t, id, max, fv) && past_last(av, id) ==> has_id(model::views(rows@), id) || (!done && past_last(
                        text_view(cursor),
                        id,
                    )),
                rows@.len() > 0 ==> looked is Some && bytes::lex_le(
                    encode_utf8(model::views(rows@).last().id),
                    encode_utf8(looked->0@),
                ),
                rows@.len() == limit ==> looked is Some && text_view(cursor) == text_view(looked),
                stands_behind(av, text_view(cursor)),
            decreases self.rows_ahead(tb, text_view(cursor)), (if done { 0int } else { 1int }),
        {
            let room: usize = limit - rows.len();
            let chunk: usize = if room < SCAN_CHUNK_ROWS {
                room
            } else {
                SCAN_CHUNK_ROWS
            };
            let ghost start = model::views(rows@);
            let ghost cv = text_view(cursor);
            let from: Option<&str> = match &cursor {
                Some(c) => Some(c.as_str()),
                None => None,
            };
            let groups = match self.index.visit_table(schema.name.as_str(), from, Some(chunk)) {
                Ok(groups) => groups,
                Err(e) => {
                    proof {
                        self.lemma_walk_stops(t, av, max, limit as int, fv, start, cv, chunk, e@);
                    }
                    return Err(e);
                },
            };
            let ghost gv = model::views(groups@);
            proof {
                self.lemma_looks_at(t, av, max, fv, start, cv, chunk, gv);
            }
            assert(self.index.is_listing(tb, visit::text_bytes(from), Some(chunk), gv));
            assert forall|id: Seq<u8>| visit::id_wanted(visit::text_bytes(from), id) == past_last(cv, id) by {}
            let mut i: usize = 0;
            while i < groups.len()
                invariant
                    self.wf(),
                    self.versions_ok(),
                    t == schema@,
                    tb == encode_utf8(t.name),
                    fv == filter_view(filter),
                    av == str_view(after),
                    self.table_view(t.name) == Some(t),
                    filter matches Some(f) ==> ordinal == ordinal_of(t, f.column@),
                    gv == model::views(groups@),
                    i <= groups@.len() <= chunk,
                    self.looks_at(t, av, max, fv, start, cv, chunk, gv),
                    start.len() + chunk <= limit,
                    rows@.len() <= start.len() + i,
                    forall|q: int| 0 <= q < gv.len() ==> self.index.is_record(tb, visit::text_bytes(from), #[trigger] gv[q]),
                    forall|p: int, q: int| 0 <= p < q < gv.len() ==> bytes::lex_lt((#[trigger] gv[p]).id, (#[trigger] gv[q]).id),
                    forall|id: Seq<u8>| visit::id_wanted(visit::text_bytes(from), id) == past_last(cv, id),
                    forall|id: Seq<u8>| #[trigger] past_last(cv, id) ==> past_last(av, id),
                    self.rows_found(t, av, max, fv, model::views(rows@)),
                    forall|p: int| 0 <= p < start.len() ==> !past_last(cv, encode_utf8((#[trigger] start[p]).id)),
                    start.is_prefix_of(model::views(rows@)),
                    forall|p: int|
                        start.len() <= p < rows@.len() ==> exists|q: int|
                            0 <= q < i && gv[q].id == encode_utf8((#[trigger] model::views(rows@)[p]).id),
                    forall|q: int| 0 <= q < i && self.is_hit(t, (#[trigger] gv[q]).id, max, fv) ==> has_id(model::views(rows@), gv[q].id),
                decreases groups@.len() - i,
            {
                let g = &groups[i];
                let ghost key = version::key_of(tb, gv[i as int].id);
                let ghost s = self.index.entries(key)->Ok_0;
                let ghost before = model::views(rows@);
                assert(gv[i as int] == g@);
                assert(self.index.is_record(tb, visit::text_bytes(from), gv[i as int]));
                assert(self.index.entries(key) is Ok);
                match group_current(&g.versions, max, schema.epoch, Ghost(s)) {
                    Some(v) => {
                        if !v.is_tombstone() {
                            assert(self.shows(t.name, g@.id, max));
                            let keep = match self.filter_keeps(v, filter, ordinal, Ghost(t)) {
                                Ok(b) => b,
                                Err(e) => {
                                    proof {
                                        assert(past_last(cv, g@.id));
                                        self.lemma_filter_stops(
                                            t,
                                            av,
                                            max,
                                            limit as int,
                                            fv,
                                            start,
                                            before,
                                            cv,
                                            chunk,
                                            gv,
                                            i as int,
                                            e@,
                                        );
                                    }
                                    return Err(e);
                                },
                            };
                            if keep {
                                rows.push(Found { id: g.id.clone(), entry: v.duplicate() });
                                proof {
                                    let now = model::views(rows@);
                                    let f = now[before.len() as int];
                                    assert(now =~= before.push(f));
                                    assert(visit::id_wanted(visit::text_bytes(from), g@.id));
                                    assert(past_last(cv, g@.id));
                                    assert(past_last(av, g@.id));
                                    assert(self.versions(t.name, g@.id) == self.index.entries(key));
                                    assert(self.is_found(t, av, max, fv, f));
                                    assert forall|p: int, q: int| 0 <= p < q < now.len() implies bytes::lex_lt(
                                        encode_utf8((#[trigger] now[p]).id),
                                        encode_utf8((#[trigger] now[q]).id),
                                    ) by {
                                        if q == before.len() {
                                            assert(now[p] == before[p]);
                                            if p < start.len() {
                                                assert(start[p] == before[p]);
                                                lemma_not_past(cv, encode_utf8(start[p].id), g@.id);
                                            } else {
                                                let w = choose|w: int| 0 <= w < i && gv[w].id == encode_utf8(before[p].id);
                                                assert(bytes::lex_lt(gv[w].id, gv[i as int].id));
                                            }
                                        } else {
                                            assert(now[p] == before[p] && now[q] == before[q]);
                                        }
                                    }
                                    assert forall|p: int| start.len() <= p < now.len() implies exists|q: int|
                                        0 <= q < i + 1 && gv[q].id == encode_utf8((#[trigger] now[p]).id) by {
                                        if p < before.len() {
                                            assert(now[p] == before[p]);
                                            let w = choose|w: int| 0 <= w < i && gv[w].id == encode_utf8(before[p].id);
                                            assert(gv[w].id == encode_utf8(now[p].id));
                                        } else {
                                            assert(gv[i as int].id == encode_utf8(now[p].id));
                                        }
                                    }
                                    assert forall|q: int| 0 <= q < i + 1 && self.is_hit(t, (#[trigger] gv[q]).id, max, fv) implies has_id(
                                        now,
                                        gv[q].id,
                                    ) by {
                                        if q < i {
                                            let w = choose|w: int| 0 <= w < before.len() && encode_utf8((#[trigger] before[w]).id) == gv[q].id;
                                            assert(now[w] == before[w]);
                                        } else {
                                            assert(encode_utf8(now[before.len() as int].id) == gv[q].id);
                                        }
                                    }
                                }
                            }
                        }
                    },
                    None => {},
                }
                i = i + 1;
            }
            let exhausted: bool = groups.len() < chunk;
            let ghost now = model::views(rows@);
            proof {
                if groups@.len() == 0 {
                    assert(now =~= start);
                }
            }
            if groups.len() > 0 {
                let last = groups[groups.len() - 1].id.clone();
                let ghost lastv = encode_utf8(last@);
                proof {
                    assert(gv[gv.len() - 1].id == lastv);
                    assert(self.index.is_record(tb, visit::text_bytes(from), gv[gv.len() - 1]));
                    self.lemma_rows_ahead(tb, cv, last@);
                    assert(past_last(cv, lastv));
                    lemma_stands_behind(av, Some(last@));
                    assert forall|id: Seq<u8>| #[trigger] past_last(Some(last@), id) implies past_last(av, id) by {
                        lemma_past_step(cv, lastv, id);
                        assert(past_last(cv, id));
                    }
                    assert forall|p: int| 0 <= p < now.len() implies !past_last(Some(last@), encode_utf8((#[trigger] now[p]).id)) by {
                        if p < start.len() {
                            assert(now[p] == start[p]);
                            lemma_not_past(cv, encode_utf8(start[p].id), lastv);
                            lemma_not_both(encode_utf8(start[p].id), lastv);
                        } else {
                            let w = choose|w: int| 0 <= w < gv.len() && gv[w].id == encode_utf8(now[p].id);
                            if w < gv.len() - 1 {
                                assert(bytes::lex_lt(gv[w].id, gv[gv.len() - 1].id));
                                lemma_not_both(gv[w].id, lastv);
                            } else {
                                bytes::lemma_lex_irreflexive(lastv);
                            }
                        }
                    }
                    if now.len() > 0 {
                        bytes::lemma_lex_trichotomy(encode_utf8(now.last().id), lastv);
                        assert(!past_last(Some(last@), encode_utf8(now[now.len() - 1].id)));
                    }
                }
                looked = Some(last.clone());
                cursor = Some(last);
            }
            if exhausted {
                done = true;
            }
            proof {
                assert forall|id: Seq<u8>| #[trigger] self.is_hit(t, id, max, fv) && past_last(av, id) implies has_id(now, id) || (!done
                    && past_last(text_view(cursor), id)) by {
                    if has_id(start, id) {
                        let w = choose|w: int| 0 <= w < start.len() && encode_utf8((#[trigger] start[w]).id) == id;
                        assert(now[w] == start[w]);
                    } else {
                        assert(past_last(cv, id));
                        lemma_versions_held(self, t.name, id, max);
                        assert(self.index.has_record(tb, id));
                        if visit::lists_id(gv, id) {
                            let q = choose|q: int| 0 <= q < gv.len() && (#[trigger] gv[q]).id == id;
                            assert(has_id(now, gv[q].id));
                        }
                    }
                }
            }
        }
        proof {
            let found = model::views(rows@);
            assert(rows@.len() == limit ==> self.covers(t, av, max, fv, found, text_view(looked)));
        }
        Ok((rows, looked))
    }
}

proof fn lemma_not_both(a: Seq<u8>, b: Seq<u8>)
    requires
        bytes::lex_lt(a, b),
    ensures
        !bytes::lex_lt(b, a),
{
    if bytes::lex_lt(b, a) {
        bytes::lemma_lex_transitive(a, b, a);
        bytes::lemma_lex_irreflexive(a);
    }
}

/// An id that is not past a place stands before one that is.
proof fn lemma_not_past(last: Option<Seq<char>>, a: Seq<u8>, b: Seq<u8>)
    requires
        !past_last(last, a),
        past_last(last, b),
    ensures
        bytes::lex_lt(a, b),
{
    let l = encode_utf8(last->0);
    bytes::lemma_lex_trichotomy(l, a);
    if a != l {
        bytes::lemma_lex_transitive(a, l, b);
    }
}

/// What stands past an id that is past a place stands past the place.
proof fn lemma_past_step(last: Option<Seq<char>>, a: Seq<u8>, id: Seq<u8>)
    requires
        past_last(last, a),
        bytes::lex_lt(a, id),
    ensures
        past_last(last, id),
{
    if last is Some {
        bytes::lemma_lex_transitive(encode_utf8(last->0), a, id);
    }
}

// ---- Batches within a byte budget -------------------------------------------

/// The fields of a record in the order of their names.
pub open spec fn fields_of(rec: RecordView) -> Seq<(Seq<u8>, ValueView)> {
    choose|s: Seq<(Seq<u8>, ValueView)>| #[trigger] pairs::sorted(s) && pairs::to_map(s) == rec
}

/// The estimated size of one decoded field.
pub open spec fn decoded_field_size(name: Seq<u8>, v: ValueView) -> int {
    let body: nat = match v {
        ValueView::Text(s) => encode_utf8(s).len(),
        ValueView::Blob(data) => data.len(),
        ValueView::Vector(w) => w.len() * 4,
        ValueView::Json(s) => encode_utf8(s).len(),
        _ => 0,
    };
    (name.len() + 64 + vstd::layout::size_of::<Value>() + body) as int
}

pub open spec fn decoded_fields_size(s: Seq<(Seq<u8>, ValueView)>) -> int
    decreases s.len(),
{
    if s.len() == 0 {
        0
    } else {
        decoded_fields_size(s.drop_last()) + decoded_field_size(s.last().0, s.last().1)
    }
}

/// The estimated memory of a decoded record.
pub open spec fn decoded_size(rec: RecordView) -> int {
    record::capped(128 + decoded_fields_size(fields_of(rec)))
}

pub fn decoded_record_bytes(rec: &Record) -> (r: usize)
    requires
        rec.wf(),
    ensures
        r == decoded_size(rec@),
{
    let fields = rec.iter();
    let ghost s = rec.pairs();
    proof {
        rec.lemma_wf();
        pairs::lemma_sorted_unique(s, fields_of(rec@));
    }
    let mut total: usize = 0;
    let mut i: usize = 0;
    assert(s.subrange(0, 0) =~= Seq::<(Seq<u8>, ValueView)>::empty());
    while i < fields.len()
        invariant
            i <= fields@.len() == s.len(),
            cow::entry_pairs(fields@) == s,
            total == record::capped(decoded_fields_size(s.subrange(0, i as int))),
            decoded_fields_size(s.subrange(0, i as int)) >= 0,
        decreases fields@.len() - i,
    {
        let (name, v) = fields[i];
        proof {
            let t = s.subrange(0, i + 1);
            assert(t.drop_last() =~= s.subrange(0, i as int));
            assert(cow::entry_pairs(fields@)[i as int] == (name.rank(), v@));
            assert(t.last() == (name.rank(), v@));
        }
        let body: usize = match v {
            Value::Text(s) => bytes::byte_len(s.as_str()),
            Value::Blob(data) => data.len(),
            Value::Vector(w) => {
                if w.len() > usize::MAX / 4 {
                    usize::MAX
                } else {
                    w.len() * 4
                }
            },
            Value::Json(s) => bytes::byte_len(s.as_str()),
            _ => 0,
        };
        total = total.saturating_add(bytes::byte_len(name.as_str())).saturating_add(64).saturating_add(
            std::mem::size_of::<Value>(),
        ).saturating_add(body);
        i = i + 1;
    }
    assert(s.subrange(0, i as int) =~= s);
    total.saturating_add(128)
}

pub open spec fn refs_size(s: Seq<StoredView>) -> int
    decreases s.len(),
{
    if s.len() == 0 {
        0
    } else {
        refs_size(s.drop_last()) + match s.last() {
            StoredView::External { len, .. } => len as int,
            _ => 0,
        }
    }
}

/// The bytes that decoding a payload brings in: its own and those of the
/// blobs that it refers to.
pub open spec fn payload_size(p: Seq<u8>) -> Result<int, ErrorView> {
    match payload::blob_refs(p) {
        Ok(refs) => Ok(p.len() + refs_size(refs)),
        Err(m) => Err(ErrorView::Corrupt(m)),
    }
}

fn payload_within(p: &[u8], budget: usize) -> (r: Result<bool, Error>)
    ensures
        match payload_size(p@) {
            Ok(n) => r is Ok && r->Ok_0 == (n <= budget),
            Err(e) => r is Err && r->Err_0@ == e,
        },
{
    let refs = match scan_payload_blob_refs(p) {
        Ok(refs) => refs,
        Err(e) => {
            return Err(e);
        },
    };
    let ghost all = payload::ref_views(refs@);
    let mut total: u128 = p.len() as u128;
    let mut i: usize = 0;
    assert(all.subrange(0, 0) =~= Seq::<StoredView>::empty());
    while i < refs.len()
        invariant
            i <= refs@.len(),
            all == payload::ref_views(refs@),
            total == p@.len() + refs_size(all.subrange(0, i as int)),
            total <= usize::MAX + i * 0xffff_ffff_ffff_ffff,
            p@.len() <= usize::MAX,
        decreases refs@.len() - i,
    {
        proof {
            let t = all.subrange(0, i + 1);
            assert(t.drop_last() =~= all.subrange(0, i as int));
            assert(t.last() == payload::ref_view(refs@[i as int]));
            assert(usize::MAX + (i + 1) * 0xffff_ffff_ffff_ffff <= u128::MAX) by (nonlinear_arith)
                requires
                    i < usize::MAX,
                    usize::MAX <= 0xffff_ffff_ffff_ffff,
            ;
            assert((i + 1) * 0xffff_ffff_ffff_ffff == i * 0xffff_ffff_ffff_ffff + 0xffff_ffff_ffff_ffff) by (nonlinear_arith);
        }
        total = total + refs[i].len as u128;
        i = i + 1;
    }
    assert(all.subrange(0, i as int) =~= all);
    Ok(total <= budget as u128)
}

pub open spec fn row_too_large() -> ErrorView {
    ErrorView::MemoryLimit("one row exceeds scan byte budget"@)
}

pub open spec fn decoded_too_large() -> ErrorView {
    ErrorView::MemoryLimit("one decoded row exceeds scan byte budget"@)
}

impl State {
    /// What a row costs within a budget: its record, and the bytes that it
    /// retains; `None` where it does not fit. The first row must fit.
    pub open spec fn row_cost(&self, t: TableView, f: FoundView, budget: Option<usize>, used: int, first: bool) -> Result<
        Option<(RecordView, int)>,
        ErrorView,
    > {
        let fits = match budget {
            None => Ok(true),
            Some(b) => match segment::payload_of(self.images(), f.entry.kind) {
                Err(e) => Err(e),
                Ok(None) => Ok(false),
                Ok(Some(p)) => match payload_size(p) {
                    Err(e) => Err(e),
                    Ok(n) => Ok(n <= b),
                },
            },
        };
        match fits {
            Err(e) => Err(e),
            Ok(false) => if first {
                Err(row_too_large())
            } else {
                Ok(None)
            },
            Ok(true) => match self.record_at(t, f.entry, f.id) {
                Err(e) => Err(e),
                Ok(rec) => match budget {
                    None => Ok(Some((rec, used))),
                    Some(b) => {
                        let after = used + record::capped(decoded_size(rec) + encode_utf8(f.id).len() + 64);
                        if after > b {
                            if first {
                                Err(decoded_too_large())
                            } else {
                                Ok(None)
                            }
                        } else {
                            Ok(Some((rec, after)))
                        }
                    },
                },
            },
        }
    }

    /// The records of the first rows, as many as fit.
    pub open spec fn taken(&self, t: TableView, rows: Seq<FoundView>, budget: Option<usize>, done: Seq<RecordView>, used: int) -> Result<
        Seq<RecordView>,
        ErrorView,
    >
        decreases rows.len() - done.len(),
    {
        if done.len() >= rows.len() {
            Ok(done)
        } else {
            match self.row_cost(t, rows[done.len() as int], budget, used, done.len() == 0) {
                Err(e) => Err(e),
                Ok(None) => Ok(done),
                Ok(Some((rec, used))) => self.taken(t, rows, budget, done.push(rec), used),
            }
        }
    }

    /// The rows of a batch: as many of the found rows as fit the budget.
    fn take_row(&self, schema: &TableSchema, f: &Found, budget: Option<usize>, used: usize, first: bool) -> (r: Result<
        Option<(Record, usize)>,
        Error,
    >)
        requires
            self.blobs.wf(),
            budget matches Some(b) ==> used <= b,
            budget is None ==> used == 0,
        ensures
            match self.row_cost(schema@, f@, budget, used as int, first) {
                Err(e) => r is Err && r->Err_0@ == e,
                Ok(None) => r is Ok && r->Ok_0 is None,
                Ok(Some(p)) => r matches Ok(Some(got)) && got.0.wf() && got.0@ == p.0 && got.1 == p.1 && (budget matches Some(b)
                    ==> p.1 <= b),
            },
    {
        match budget {
            None => {},
            Some(b) => {
                let fits: bool = match payload_bytes(&self.segments, &f.entry.kind) {
                    Err(e) => {
                        return Err(e);
                    },
                    Ok(None) => false,
                    Ok(Some(p)) => match payload_within(p.as_slice(), b) {
                        Err(e) => {
                            return Err(e);
                        },
                        Ok(fits) => fits,
                    },
                };
                if !fits {
                    if first {
                        return Err(Error::MemoryLimit("one row exceeds scan byte budget".to_owned()));
                    }
                    return Ok(None);
                }
            },
        }
        let rec = match self.read_version(schema, &f.entry, f.id.as_str()) {
            Ok(rec) => rec,
            Err(e) => {
                return Err(e);
            },
        };
        match budget {
            None => Ok(Some((rec, used))),
            Some(b) => {
                let size: usize = decoded_record_bytes(&rec).saturating_add(bytes::byte_len(f.id.as_str())).saturating_add(64);
                if size > b - used {
                    if first {
                        return Err(Error::MemoryLimit("one decoded row exceeds scan byte budget".to_owned()));
                    }
                    return Ok(None);
                }
                Ok(Some((rec, used + size)))
            },
        }
    }
}

/// One batch of a scan: rows with their ids, and the id to go on after.
pub struct ScanBatch {
    pub ids: Vec<String>,
    pub rows: Vec<Record>,
    pub next: Option<String>,
}

pub open spec fn records(rows: Seq<Record>) -> Seq<RecordView> {
    Seq::new(rows.len(), |i: int| rows[i]@)
}

/// The most rows that a scan within a budget looks for at once.
pub open spec fn row_limit(limit: int, budget: Option<usize>) -> int {
    match budget {
        None => limit,
        Some(b) => {
            let by_bytes = if b / 256 < 1 {
                1
            } else {
                (b / 256) as int
            };
            if by_bytes < limit {
                by_bytes
            } else {
                limit
            }
        },
    }
}

impl ScanBatch {
    /// The batch holds the first of the found rows, as many as were taken,
    /// and goes on where nothing was passed over.
    pub open spec fn holds(&self, found: Seq<FoundView>, taken: Seq<RecordView>, last: Option<Seq<char>>) -> bool {
        &&& records(self.rows@) == taken
        &&& self.ids@.len() == taken.len()
        &&& taken.len() <= found.len()
        &&& forall|i: int| 0 <= i < self.ids@.len() ==> (#[trigger] self.ids@[i])@ == found[i].id
        &&& forall|i: int| 0 <= i < self.rows@.len() ==> (#[trigger] self.rows@[i]).wf()
        &&& text_view(self.next) == (if taken.len() == 0 {
            None
        } else if taken.len() < found.len() {
            Some(found[taken.len() - 1].id)
        } else {
            last
        })
    }
}

impl State {
    /// Rows after `after` that a reader at `max_version` sees and the filter
    /// keeps, at most `limit`, and no more than fit `max_bytes`.
    pub fn scan_batch(
        &self,
        table: &str,
        max_version: u64,
        after: Option<&str>,
        limit: usize,
        max_bytes: Option<usize>,
        filter: Option<&ScanFilter>,
    ) -> (r: Result<ScanBatch, Error>)
        requires
            self.wf(),
            self.versions_ok(),
        ensures
            limit == 0 ==> (r matches Ok(b) && b.ids@.len() == 0 && b.rows@.len() == 0 && b.next is None),
            limit > 0 ==> match self.table_view(table@) {
                None => r is Err && r->Err_0@ == ErrorView::TableNotFound(table@),
                Some(t) => match r {
                    Ok(b) => exists|found: Seq<FoundView>, last: Option<Seq<char>>|
                        {
                            &&& #[trigger] self.is_prepared(
                                t,
                                str_view(after),
                                max_version,
                                row_limit(limit as int, max_bytes),
                                filter_view(filter),
                                found,
                                last,
                            )
                            &&& self.taken(t, found, max_bytes, Seq::empty(), 0) matches Ok(recs) && b.holds(found, recs, last)
                        },
                    Err(e) => (self.is_scan_error(t, max_version, filter_view(filter), e@) && self.scan_stops(
                        t,
                        str_view(after),
                        max_version,
                        row_limit(limit as int, max_bytes),
                        filter_view(filter),
                        e@,
                    )) || exists|
                        found: Seq<FoundView>,
                        last: Option<Seq<char>>,
                    |
                        {
                            &&& #[trigger] self.is_prepared(
                                t,
                                str_view(after),
                                max_version,
                                row_limit(limit as int, max_bytes),
                                filter_view(filter),
                                found,
                                last,
                            )
                            &&& self.taken(t, found, max_bytes, Seq::empty(), 0) == Err::<Seq<RecordView>, ErrorView>(e@)
                        },
                },
            },
    {
        let mut rows: Vec<Record> = Vec::new();
        let mut ids: Vec<String> = Vec::new();
        if limit == 0 {
            return Ok(ScanBatch { ids, rows, next: None });
        }
        let schema = match self.catalog.table(table) {
            None => {
                return Err(table_not_found(table));
            },
            Some(t) => t,
        };
        proof {
            self.lemma_table(table@);
        }
        let most: usize = match max_bytes {
            None => limit,
            Some(b) => {
                let by_bytes: usize = if b / 256 < 1 {
                    1
                } else {
                    b / 256
                };
                if by_bytes < limit {
                    by_bytes
                } else {
                    limit
                }
            },
        };
        let (found, last) = match self.find_rows(schema, after, max_version, most, filter) {
            Ok(p) => p,
            Err(e) => {
                return Err(e);
            },
        };
        let ghost fv = model::views(found@);
        let ghost lv = text_view(last);
        let ghost t = schema@;
        let ghost whole = self.taken(t, fv, max_bytes, Seq::empty(), 0);
        assert(self.is_prepared(t, str_view(after), max_version, most as int, filter_view(filter), fv, lv));
        let mut used: usize = 0;
        let mut going: bool = true;
        assert(records(rows@) =~= Seq::<RecordView>::empty());
        while going && rows.len() < found.len()
            invariant
                self.wf(),
                t == schema@,
                fv == model::views(found@),
                rows@.len() == ids@.len() <= found@.len(),
                forall|i: int| 0 <= i < ids@.len() ==> (#[trigger] ids@[i])@ == fv[i].id,
                forall|i: int| 0 <= i < rows@.len() ==> (#[trigger] rows@[i]).wf(),
                max_bytes matches Some(b) ==> used <= b,
                max_bytes is None ==> used == 0,
                whole == self.taken(t, fv, max_bytes, Seq::empty(), 0),
                going ==> whole == self.taken(t, fv, max_bytes, records(rows@), used as int),
                !going ==> whole == Ok::<Seq<RecordView>, ErrorView>(records(rows@)) && rows@.len() < found@.len(),
                lv == text_view(last),
                self.table_view(table@) == Some(t),
                limit > 0,
                self.is_prepared(
                    t,
                    str_view(after),
                    max_version,
                    row_limit(limit as int, max_bytes),
                    filter_view(filter),
                    fv,
                    lv,
                ),
            decreases found@.len() - rows@.len(), (if going { 1int } else { 0int }),
        {
            let f = &found[rows.len()];
            let first: bool = rows.len() == 0;
            assert(fv[rows@.len() as int] == f@);
            match self.take_row(schema, f, max_bytes, used, first) {
                Err(e) => {
                    assert(whole == Err::<Seq<RecordView>, ErrorView>(e@));
                    return Err(e);
                },
                Ok(None) => {
                    going = false;
                },
                Ok(Some((rec, next_used))) => {
                    let ghost before = records(rows@);
                    ids.push(f.id.clone());
                    let ghost rv = rec@;
                    rows.push(rec);
                    assert(records(rows@) =~= before.push(rv));
                    used = next_used;
                },
            }
        }
        let next: Option<String> = if rows.len() == 0 {
            None
        } else if rows.len() < found.len() {
            Some(found[rows.len() - 1].id.clone())
        } else {
            last
        };
        let batch = ScanBatch { ids, rows, next };
        assert(batch.holds(fv, records(batch.rows@), lv));
        Ok(batch)
    }
}

} // verus!
