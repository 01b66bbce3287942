//! Reading whole tables, a batch at a time.

use crate::bytes;
use crate::error::{table_not_found, Error, ErrorView};
use crate::find::{self, Hit, HitView};
use crate::model;
use crate::reads::{self, FoundView, ScanBatch};
use crate::record::RecordView;
use crate::schema::TableView;
use crate::state::State;
use vstd::prelude::*;
use vstd::utf8::*;

verus! {

/// `rows` are all records that a reader at `max` sees, in the order of their ids.
pub open spec fn all_rows(st: &State, t: TableView, max: u64, rows: Seq<FoundView>) -> bool {
    &&& st.rows_found(t, None, max, None, rows)
    &&& forall|id: Seq<u8>| #[trigger] st.is_hit(t, id, max, None) ==> reads::has_id(rows, id)
}

/// The rows as they are read.
pub open spec fn rows_read(st: &State, t: TableView, rows: Seq<FoundView>, hits: Seq<HitView>) -> bool {
    &&& hits.len() == rows.len()
    &&& forall|i: int| 0 <= i < rows.len() ==> row_read(st, t, #[trigger] rows[i], hits[i])
}

pub open spec fn row_read(st: &State, t: TableView, f: FoundView, h: HitView) -> bool {
    h.id == f.id && st.record_at(t, f.entry, f.id) == Ok::<RecordView, ErrorView>(h.record)
}

/// What can go wrong: with finding a row, or with reading it.
pub open spec fn scan_fault(st: &State, t: TableView, max: u64, e: ErrorView) -> bool {
    ||| st.is_scan_error(t, max, None, e)
    ||| exists|f: FoundView| #[trigger] st.is_found(t, None, max, None, f) && st.record_at(t, f.entry, f.id) == Err::<
        RecordView,
        ErrorView,
    >(e)
}

/// Without a budget every row is taken, unless one cannot be read.
proof fn lemma_all_taken(st: &State, t: TableView, rows: Seq<FoundView>, done: Seq<RecordView>, used: int)
    requires
        done.len() <= rows.len(),
    ensures
        match st.taken(t, rows, None, done, used) {
            Ok(recs) => recs.len() == rows.len() && recs.subrange(0, done.len() as int) == done && forall|i: int|
                done.len() <= i < rows.len() ==> st.record_at(t, (#[trigger] rows[i]).entry, rows[i].id) == Ok::<RecordView, ErrorView>(
                    recs[i],
                ),
            Err(e) => exists|i: int|
                0 <= i < rows.len() && st.record_at(t, (#[trigger] rows[i]).entry, rows[i].id) == Err::<RecordView, ErrorView>(e),
        },
    decreases rows.len() - done.len(),
{
    if done.len() < rows.len() {
        let k = done.len() as int;
        match st.record_at(t, rows[k].entry, rows[k].id) {
            Ok(rec) => {
                let more = done.push(rec);
                lemma_all_taken(st, t, rows, more, used);
                match st.taken(t, rows, None, done, used) {
                    Ok(recs) => {
                        assert(recs.subrange(0, k + 1)[k] == rec);
                        assert(recs.subrange(0, k) =~= done) by {
                            assert forall|i: int| 0 <= i < k implies recs[i] == done[i] by {
                                assert(recs.subrange(0, k + 1)[i] == more[i]);
                            }
                        }
                    },
                    Err(_) => {},
                }
            },
            Err(_) => {},
        }
    } else {
        assert(done.subrange(0, done.len() as int) =~= done);
    }
}

/// `rows` are the first records that a reader at `max` sees, and all others
/// stand behind `after`.
#[verifier::opaque]
pub open spec fn scanned(st: &State, t: TableView, max: u64, after: Option<Seq<char>>, rows: Seq<FoundView>) -> bool {
    &&& st.rows_found(t, None, max, None, rows)
    &&& rows.len() == 0 ==> after is None
    &&& rows.len() > 0 ==> after == Some(rows.last().id)
    &&& forall|id: Seq<u8>| #[trigger] st.is_hit(t, id, max, None) ==> reads::has_id(rows, id) || reads::past_last(after, id)
}

/// Some rows are all records that a reader sees, and `hits` are what they read.
#[verifier::opaque]
pub open spec fn is_scan(st: &State, t: TableView, max: u64, hits: Seq<HitView>) -> bool {
    exists|rows: Seq<FoundView>| #[trigger] all_rows(st, t, max, rows) && rows_read(st, t, rows, hits)
}

proof fn lemma_scan_begins(st: &State, t: TableView, max: u64)
    ensures
        scanned(st, t, max, None, Seq::empty()),
        rows_read(st, t, Seq::empty(), Seq::empty()),
{
    reveal(scanned);
}

/// The rows of one more batch, behind those of the batches before.
proof fn lemma_batch_joins(
    st: &State,
    t: TableView,
    max: u64,
    limit: int,
    rows: Seq<FoundView>,
    after: Option<Seq<char>>,
    batch: Seq<FoundView>,
    last: Option<Seq<char>>,
)
    requires
        limit > 0,
        scanned(st, t, max, after, rows),
        st.is_prepared(t, after, max, limit, None, batch, last),
    ensures
        batch.len() < limit ==> all_rows(st, t, max, rows + batch),
        batch.len() > 0 ==> scanned(st, t, max, Some(batch.last().id), rows + batch),
{
    reveal(scanned);
    let all = rows + batch;
    assert forall|i: int| 0 <= i < all.len() implies st.is_found(t, None, max, None, #[trigger] all[i]) by {
        if i < rows.len() {
            assert(all[i] == rows[i]);
        } else {
            assert(all[i] == batch[i - rows.len()]);
        }
    }
    assert forall|i: int, j: int| 0 <= i < j < all.len() implies bytes::lex_lt(
        encode_utf8((#[trigger] all[i]).id),
        encode_utf8((#[trigger] all[j]).id),
    ) by {
        if j < rows.len() {
            assert(all[i] == rows[i] && all[j] == rows[j]);
        } else if i >= rows.len() {
            assert(all[i] == batch[i - rows.len()] && all[j] == batch[j - rows.len()]);
        } else {
            assert(all[i] == rows[i] && all[j] == batch[j - rows.len()]);
            assert(st.is_found(t, after, max, None, batch[j - rows.len()]));
            if i < rows.len() - 1 {
                assert(bytes::lex_lt(encode_utf8(rows[i].id), encode_utf8(rows[rows.len() - 1].id)));
                bytes::lemma_lex_transitive(encode_utf8(rows[i].id), encode_utf8(rows.last().id), encode_utf8(all[j].id));
            }
        }
    }
    assert forall|id: Seq<u8>| reads::has_id(rows, id) || reads::has_id(batch, id) implies reads::has_id(all, id) by {
        if reads::has_id(rows, id) {
            let i = choose|i: int| 0 <= i < rows.len() && encode_utf8((#[trigger] rows[i]).id) == id;
            assert(all[i] == rows[i]);
        } else {
            let i = choose|i: int| 0 <= i < batch.len() && encode_utf8((#[trigger] batch[i]).id) == id;
            assert(all[i + rows.len()] == batch[i]);
        }
    }
    if batch.len() > 0 {
        let end = batch.last().id;
        assert forall|id: Seq<u8>| #[trigger] st.is_hit(t, id, max, None) implies reads::has_id(all, id) || reads::past_last(
            Some(end),
            id,
        ) by {
            if !reads::has_id(rows, id) && !reads::has_id(batch, id) {
                assert(reads::past_last(last, id));
                if encode_utf8(end) != encode_utf8(last->0) {
                    bytes::lemma_lex_transitive(encode_utf8(end), encode_utf8(last->0), id);
                }
            }
        }
    }
}

/// The rows of a batch with their ids.
pub open spec fn batch_hits(b: ScanBatch) -> Seq<HitView> {
    Seq::new(b.rows@.len(), |i: int| HitView { id: b.ids@[i]@, record: b.rows@[i]@ })
}

fn append_rows(out: &mut Vec<Hit>, batch: &ScanBatch)
    requires
        batch.ids@.len() == batch.rows@.len(),
        find::hits_wf(old(out)@),
        forall|k: int| 0 <= k < batch.rows@.len() ==> (#[trigger] batch.rows@[k]).wf(),
    ensures
        model::views(final(out)@) == model::views(old(out)@) + batch_hits(*batch),
        find::hits_wf(final(out)@),
{
    let ghost before = model::views(out@);
    let ghost more = batch_hits(*batch);
    let mut i: usize = 0;
    assert(before + more.subrange(0, 0) =~= before);
    while i < batch.rows.len()
        invariant
            i <= batch.rows@.len() == batch.ids@.len(),
            more == batch_hits(*batch),
            find::hits_wf(out@),
            forall|k: int| 0 <= k < batch.rows@.len() ==> (#[trigger] batch.rows@[k]).wf(),
            model::views(out@) == before + more.subrange(0, i as int),
        decreases batch.rows@.len() - i,
    {
        let ghost so_far = model::views(out@);
        let hit = Hit { id: batch.ids[i].clone(), record: batch.rows[i].duplicate_map() };
        out.push(hit);
        assert(model::views(out@) =~= so_far.push(hit@));
        assert(hit@ =~= more[i as int]);
        assert(before + more.subrange(0, i + 1) =~= so_far.push(more[i as int]));
        i = i + 1;
    }
    assert(more.subrange(0, i as int) =~= more);
}

proof fn lemma_rows_join(st: &State, t: TableView, was: Seq<FoundView>, before: Seq<HitView>, some: Seq<FoundView>, more: Seq<HitView>)
    requires
        rows_read(st, t, was, before),
        rows_read(st, t, some, more),
    ensures
        rows_read(st, t, was + some, before + more),
{
    let rows = was + some;
    let hits = before + more;
    assert forall|k: int| 0 <= k < rows.len() implies row_read(st, t, #[trigger] rows[k], hits[k]) by {
        if k < was.len() {
            assert(rows[k] == was[k]);
        } else {
            assert(rows[k] == some[k - was.len()]);
        }
    }
}

proof fn lemma_batch_read(st: &State, t: TableView, some: Seq<FoundView>, recs: Seq<RecordView>, last: Option<Seq<char>>, b: ScanBatch)
    requires
        st.taken(t, some, None, Seq::empty(), 0) == Ok::<Seq<RecordView>, ErrorView>(recs),
        b.holds(some, recs, last),
    ensures
        rows_read(st, t, some, batch_hits(b)),
        b.rows@.len() == some.len(),
{
    lemma_all_taken(st, t, some, Seq::empty(), 0);
    let hits = batch_hits(b);
    assert forall|k: int| 0 <= k < some.len() implies row_read(st, t, #[trigger] some[k], hits[k]) by {
        assert(reads::records(b.rows@)[k] == b.rows@[k]@);
        assert(b.ids@[k]@ == some[k].id);
    }
}

/// `b` is the batch behind `after`.
#[verifier::opaque]
pub open spec fn is_batch(st: &State, t: TableView, max: u64, limit: int, after: Option<Seq<char>>, b: ScanBatch) -> bool {
    exists|some: Seq<FoundView>, last: Option<Seq<char>>|
        #[trigger] st.is_prepared(t, after, max, limit, None, some, last) && (st.taken(t, some, None, Seq::empty(), 0) matches Ok(
            recs,
        ) && b.holds(some, recs, last))
}

/// The state can be read.
#[verifier::opaque]
pub open spec fn is_readable(st: &State) -> bool {
    st.wf() && st.versions_ok()
}

/// What one batch adds to a scan.
proof fn lemma_batch_taken(
    st: &State,
    t: TableView,
    max: u64,
    limit: int,
    rows: Seq<FoundView>,
    after: Option<Seq<char>>,
    hits: Seq<HitView>,
    b: ScanBatch,
) -> (some: Seq<FoundView>)
    requires
        limit > 0,
        scanned(st, t, max, after, rows),
        rows_read(st, t, rows, hits),
        is_batch(st, t, max, limit, after, b),
    ensures
        b.rows@.len() == some.len() == b.ids@.len(),
        rows_read(st, t, rows + some, hits + batch_hits(b)),
        some.len() < limit ==> is_scan(st, t, max, hits + batch_hits(b)),
        some.len() > 0 ==> scanned(st, t, max, Some(b.ids@[some.len() - 1]@), rows + some),
{
    reveal(is_batch);
    let (some, last) = choose|some: Seq<FoundView>, last: Option<Seq<char>>|
        #[trigger] st.is_prepared(t, after, max, limit, None, some, last) && (st.taken(t, some, None, Seq::empty(), 0) matches Ok(
            recs,
        ) && b.holds(some, recs, last));
    lemma_batch_read(st, t, some, st.taken(t, some, None, Seq::empty(), 0)->Ok_0, last, b);
    lemma_batch_joins(st, t, max, limit, rows, after, some, last);
    lemma_rows_join(st, t, rows, hits, some, batch_hits(b));
    reveal(is_scan);
    some
}

impl State {
    fn next_batch(&self, table: &str, max_version: u64, after: &Option<String>, limit: usize) -> (r: Result<ScanBatch, Error>)
        requires
            is_readable(self),
            limit > 0,
            self.table_view(table@) is Some,
        ensures
            match r {
                Ok(b) => {
                    &&& is_batch(self, self.table_view(table@)->0, max_version, limit as int, model::text_view(*after), b)
                    &&& b.ids@.len() == b.rows@.len()
                    &&& forall|k: int| 0 <= k < b.rows@.len() ==> (#[trigger] b.rows@[k]).wf()
                },
                Err(e) => scan_fault(self, self.table_view(table@)->0, max_version, e@),
            },
    {
        let ghost t = self.table_view(table@)->0;
        proof {
            reveal(is_readable);
            reveal(is_batch);
        }
        let from: Option<&str> = match after {
            Some(a) => Some(a.as_str()),
            None => None,
        };
        assert(reads::str_view(from) == model::text_view(*after));
        match self.scan_batch(table, max_version, from, limit, None, None) {
            Err(e) => {
                proof {
                    self.lemma_scan_fault(t, max_version, reads::str_view(from), limit as int, e@);
                }
                Err(e)
            },
            Ok(b) => Ok(b),
        }
    }

    /// All records that a reader at `max_version` sees, in the order of their
    /// ids.
    pub fn scan_at(&self, table: &str, max_version: u64, batch_rows: usize) -> (r: Result<Vec<Hit>, Error>)
        requires
            self.wf(),
            self.versions_ok(),
        ensures
            match self.table_view(table@) {
                None => r is Err && r->Err_0@ == ErrorView::TableNotFound(table@),
                Some(t) => match r {
                    Ok(hits) => find::hits_wf(hits@) && is_scan(self, t, max_version, model::views(hits@)),
                    Err(e) => scan_fault(self, t, max_version, e@),
                },
            },
    {
        let rows_at_once: usize = if batch_rows < 1 {
            1
        } else {
            batch_rows
        };
        if self.catalog.table(table).is_none() {
            return Err(table_not_found(table));
        }
        let ghost t = self.table_view(table@)->0;
        let mut out: Vec<Hit> = Vec::new();
        let mut after: Option<String> = None;
        let ghost mut rows: Seq<FoundView> = Seq::empty();
        proof {
            reveal(is_readable);
            lemma_scan_begins(self, t, max_version);
            assert(model::views(out@) =~= Seq::<HitView>::empty());
        }
        loop
            invariant
                is_readable(self),
                rows_at_once > 0,
                self.table_view(table@) == Some(t),
                scanned(self, t, max_version, model::text_view(after), rows),
                rows_read(self, t, rows, model::views(out@)),
                find::hits_wf(out@),
            decreases usize::MAX - out@.len(),
        {
            let ghost before = model::views(out@);
            let batch = match self.next_batch(table, max_version, &after, rows_at_once) {
                Err(e) => {
                    return Err(e);
                },
                Ok(b) => b,
            };
            let count: usize = batch.rows.len();
            append_rows(&mut out, &batch);
            proof {
                let more = lemma_batch_taken(
                    self,
                    t,
                    max_version,
                    rows_at_once as int,
                    rows,
                    model::text_view(after),
                    before,
                    batch,
                );
                rows = rows + more;
            }
            if count < rows_at_once {
                return Ok(out);
            }
            assert(out.len() == model::views(out@).len());
            after = Some(batch.ids[count - 1].clone());
        }
    }

    proof fn lemma_scan_fault(&self, t: TableView, max: u64, from: Option<Seq<char>>, limit: int, e: ErrorView)
        requires
            self.is_scan_error(t, max, None, e) || exists|some: Seq<FoundView>, last: Option<Seq<char>>|
                #[trigger] self.is_prepared(t, from, max, limit, None, some, last) && self.taken(t, some, None, Seq::empty(), 0)
                    == Err::<Seq<RecordView>, ErrorView>(e),
        ensures
            scan_fault(self, t, max, e),
    {
        if !self.is_scan_error(t, max, None, e) {
            let (some, last) = choose|some: Seq<FoundView>, last: Option<Seq<char>>|
                #[trigger] self.is_prepared(t, from, max, limit, None, some, last) && self.taken(t, some, None, Seq::empty(), 0)
                    == Err::<Seq<RecordView>, ErrorView>(e);
            lemma_all_taken(self, t, some, Seq::empty(), 0);
            let i = choose|i: int|
                0 <= i < some.len() && self.record_at(t, (#[trigger] some[i]).entry, some[i].id) == Err::<RecordView, ErrorView>(e);
            assert(self.is_found(t, from, max, None, some[i]));
            assert(self.is_found(t, None, max, None, some[i]));
        }
    }
}

} // verus!
