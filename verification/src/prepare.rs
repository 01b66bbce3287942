//! Preparing a transaction for its commit: records in their stored form, and
//! what the commit will cost.

use crate::apply;
use crate::bytes::{self, Place};
use crate::commit::{self, changed_message};
use crate::commit_laws;
use crate::error::{invalid, Error, ErrorView};
use crate::model;
use crate::payload;
use crate::primary;
use crate::record::{self, encode_record_ordered, Record, RecordView};
use crate::schema::{Column, TableSchema, TableView};
use crate::segment::{self, read_record_kind};
use crate::staged::{self, ChangeView, PreparedChange, PreparedTable, Replay, Replayed, StagedView};
use crate::state::{self, State};
use crate::text::{self, decimal_text};
use crate::value::{self, BlobRef, Value};
use crate::version::{VersionEntry, VersionView};
use std::sync::Arc;
use vstd::prelude::*;
use vstd::string::*;
use vstd::utf8::*;

verus! {

/// A change that a transaction staged.
pub struct StagedChange {
    pub id: String,
    pub operation: Option<Record>,
    /// Per column, the reference of a blob that was written out of line.
    pub external: Vec<Option<BlobRef>>,
    pub replay: Option<Replay>,
    /// What the words of its texts charge, before and after the change.
    pub token_bytes: usize,
}

pub struct StagedTable {
    pub name: String,
    pub schema: TableSchema,
    pub operations: Vec<StagedChange>,
}

impl StagedChange {
    pub open spec fn wf(&self) -> bool {
        &&& self.operation matches Some(rec) ==> rec.wf()
        &&& self.replay matches Some(r) ==> (r.outcome matches Some(p) ==> p.record.wf())
    }
}

impl StagedTable {
    /// Names and columns fit the stored form, the changes stand in the order of
    /// their ids, and every record has a place for each of its out-of-line blobs.
    pub open spec fn wf(&self) -> bool {
        &&& state::schema_fits(self.schema@)
        &&& ids_rise(self.operations@)
        &&& forall|i: int| 0 <= i < self.operations@.len() ==> {
            &&& (#[trigger] self.operations@[i]).wf()
            &&& staged::replay_stored(self.schema@, self.operations@[i].replay)
            &&& self.operations@[i].operation is Some ==> self.operations@[i].external@.len() == self.schema@.columns.len()
        }
    }
}

/// The ids stand in order.
pub open spec fn ids_rise(s: Seq<StagedChange>) -> bool {
    forall|i: int, j: int|
        0 <= i < j < s.len() ==> bytes::lex_lt(encode_utf8((#[trigger] s[i]).id@), encode_utf8((#[trigger] s[j]).id@))
}

/// No table occurs twice.
pub open spec fn names_apart(s: Seq<StagedTable>) -> bool {
    forall|i: int, j: int|
        0 <= i < s.len() && 0 <= j < s.len() && (#[trigger] s[i]).name@ == (#[trigger] s[j]).name@ ==> i == j
}

pub open spec fn each_wf(s: Seq<StagedTable>) -> bool {
    forall|i: int| 0 <= i < s.len() ==> (#[trigger] s[i]).wf()
}

pub open spec fn all_wf(s: Seq<StagedTable>) -> bool {
    each_wf(s) && names_apart(s)
}

// ---- Tables in order --------------------------------------------------------

/// The list with a table put behind those whose names do not stand after its own.
pub open spec fn insert_named(s: Seq<StagedTable>, t: StagedTable) -> Seq<StagedTable>
    decreases s.len(),
{
    if s.len() == 0 {
        seq![t]
    } else if bytes::lex_lt(encode_utf8(t.name@), encode_utf8(s.last().name@)) {
        insert_named(s.drop_last(), t).push(s.last())
    } else {
        s.push(t)
    }
}

/// The tables that have changes, in the order of their names.
pub open spec fn arranged(s: Seq<StagedTable>) -> Seq<StagedTable>
    decreases s.len(),
{
    if s.len() == 0 {
        Seq::empty()
    } else {
        let rest = arranged(s.drop_first());
        if s.first().operations@.len() == 0 {
            rest
        } else {
            insert_named(rest, s.first())
        }
    }
}

pub open spec fn names_ordered(s: Seq<StagedTable>) -> bool {
    forall|i: int, j: int|
        0 <= i < j < s.len() ==> !bytes::lex_lt(encode_utf8((#[trigger] s[j]).name@), encode_utf8((#[trigger] s[i]).name@))
}

proof fn lemma_insert_named(s: Seq<StagedTable>, t: StagedTable)
    ensures
        forall|x: StagedTable| #[trigger] insert_named(s, t).contains(x) <==> s.contains(x) || x == t,
        names_ordered(s) ==> names_ordered(insert_named(s, t)),
    decreases s.len(),
{
    let r = insert_named(s, t);
    if s.len() == 0 {
        assert(r[0] == t);
    } else if bytes::lex_lt(encode_utf8(t.name@), encode_utf8(s.last().name@)) {
        let head = s.drop_last();
        let mid = insert_named(head, t);
        lemma_insert_named(head, t);
        assert forall|x: StagedTable| #[trigger] r.contains(x) <==> s.contains(x) || x == t by {
            if r.contains(x) {
                let k = r.index_of(x);
                if k < mid.len() {
                    assert(mid[k] == x);
                    assert(mid.contains(x));
                    if head.contains(x) {
                        assert(s[head.index_of(x)] == x);
                    }
                } else {
                    assert(s[s.len() - 1] == x);
                }
            }
            if s.contains(x) {
                let k = s.index_of(x);
                if k < head.len() {
                    assert(head[k] == x);
                    assert(mid.contains(x));
                    assert(r[mid.index_of(x)] == x);
                } else {
                    assert(r[mid.len() as int] == x);
                }
            }
            if x == t {
                assert(mid.contains(x));
                assert(r[mid.index_of(x)] == x);
            }
        }
        if names_ordered(s) {
            assert(names_ordered(head)) by {
                assert forall|i: int, j: int| 0 <= i < j < head.len() implies !bytes::lex_lt(
                    encode_utf8((#[trigger] head[j]).name@),
                    encode_utf8((#[trigger] head[i]).name@),
                ) by {
                    assert(head[i] == s[i] && head[j] == s[j]);
                }
            }
            assert forall|i: int, j: int| 0 <= i < j < r.len() implies !bytes::lex_lt(
                encode_utf8((#[trigger] r[j]).name@),
                encode_utf8((#[trigger] r[i]).name@),
            ) by {
                if j < mid.len() {
                    assert(r[i] == mid[i] && r[j] == mid[j]);
                } else {
                    let x = mid[i];
                    assert(mid.contains(x));
                    let a = encode_utf8(x.name@);
                    let b = encode_utf8(s.last().name@);
                    if head.contains(x) {
                        let k = head.index_of(x);
                        assert(s[k] == x && s[s.len() - 1] == s.last());
                    } else {
                        bytes::lemma_lex_irreflexive(a);
                        if bytes::lex_lt(b, a) {
                            bytes::lemma_lex_transitive(a, b, a);
                        }
                    }
                }
            }
        }
    } else {
        assert forall|x: StagedTable| #[trigger] r.contains(x) <==> s.contains(x) || x == t by {
            if s.contains(x) {
                assert(r[s.index_of(x)] == x);
            }
            if x == t {
                assert(r[s.len() as int] == x);
            }
            if r.contains(x) {
                let k = r.index_of(x);
                if k < s.len() {
                    assert(s[k] == x);
                }
            }
        }
        if names_ordered(s) {
            assert forall|i: int, j: int| 0 <= i < j < r.len() implies !bytes::lex_lt(
                encode_utf8((#[trigger] r[j]).name@),
                encode_utf8((#[trigger] r[i]).name@),
            ) by {
                if j < s.len() {
                    assert(r[i] == s[i] && r[j] == s[j]);
                } else {
                    let a = encode_utf8(s[i].name@);
                    let b = encode_utf8(s.last().name@);
                    let c = encode_utf8(t.name@);
                    if bytes::lex_lt(c, a) {
                        if i < s.len() - 1 {
                            assert(!bytes::lex_lt(encode_utf8(s[s.len() - 1].name@), encode_utf8(s[i].name@)));
                            bytes::lemma_lex_trichotomy(a, b);
                            if a != b {
                                bytes::lemma_lex_transitive(c, a, b);
                            }
                        }
                    }
                }
            }
        }
    }
}

proof fn lemma_insert_apart(s: Seq<StagedTable>, t: StagedTable)
    requires
        names_apart(s),
        forall|i: int| 0 <= i < s.len() ==> (#[trigger] s[i]).name@ != t.name@,
    ensures
        names_apart(insert_named(s, t)),
    decreases s.len(),
{
    let r = insert_named(s, t);
    lemma_insert_named(s, t);
    if s.len() > 0 {
        let u = s.drop_last();
        assert forall|i: int| 0 <= i < u.len() implies (#[trigger] u[i]).name@ != t.name@ by {
            assert(s[i].name@ != t.name@);
        }
        assert(names_apart(u)) by {
            assert forall|i: int, j: int| 0 <= i < u.len() && 0 <= j < u.len() && (#[trigger] u[i]).name@ == (#[trigger] u[j]).name@ implies i
                == j by {
                assert(s[i] == u[i] && s[j] == u[j]);
            }
        }
        if bytes::lex_lt(encode_utf8(t.name@), encode_utf8(s.last().name@)) {
            lemma_insert_apart(u, t);
            lemma_insert_named(u, t);
            let w = insert_named(u, t);
            assert forall|i: int, j: int| 0 <= i < r.len() && 0 <= j < r.len() && (#[trigger] r[i]).name@ == (#[trigger] r[j]).name@ implies i
                == j by {
                if i < w.len() {
                    assert(r[i] == w[i]);
                    assert(w.contains(w[i]));
                }
                if j < w.len() {
                    assert(r[j] == w[j]);
                    assert(w.contains(w[j]));
                }
                if i < w.len() && j >= w.len() {
                    lemma_last_apart(s, t, w[i]);
                }
                if j < w.len() && i >= w.len() {
                    lemma_last_apart(s, t, w[j]);
                }
            }
        } else {
            assert forall|i: int, j: int| 0 <= i < r.len() && 0 <= j < r.len() && (#[trigger] r[i]).name@ == (#[trigger] r[j]).name@ implies i
                == j by {
                if i < s.len() {
                    assert(r[i] == s[i]);
                }
                if j < s.len() {
                    assert(r[j] == s[j]);
                }
            }
        }
    }
}

proof fn lemma_last_apart(s: Seq<StagedTable>, t: StagedTable, x: StagedTable)
    requires
        s.len() > 0,
        names_apart(s),
        s.last().name@ != t.name@,
        s.drop_last().contains(x) || x == t,
    ensures
        x.name@ != s.last().name@,
{
    if s.drop_last().contains(x) {
        let k = s.drop_last().index_of(x);
        assert(s[k] == x);
        assert(s[s.len() - 1] == s.last());
    }
}

/// Arranging keeps tables apart.
proof fn lemma_arranged_apart(s: Seq<StagedTable>)
    requires
        names_apart(s),
    ensures
        names_apart(arranged(s)),
    decreases s.len(),
{
    if s.len() > 0 {
        let rest = s.drop_first();
        assert(names_apart(rest)) by {
            assert forall|i: int, j: int| 0 <= i < rest.len() && 0 <= j < rest.len() && (#[trigger] rest[i]).name@ == (
            #[trigger] rest[j]).name@ implies i == j by {
                assert(s[i + 1] == rest[i] && s[j + 1] == rest[j]);
            }
        }
        lemma_arranged_apart(rest);
        lemma_arranged(rest);
        let a = arranged(rest);
        assert forall|i: int| 0 <= i < a.len() implies (#[trigger] a[i]).name@ != s.first().name@ by {
            assert(a.contains(a[i]));
            let k = rest.index_of(a[i]);
            assert(s[k + 1] == a[i] && s[0] == s.first());
        }
        lemma_insert_apart(a, s.first());
    }
}

/// Prepared tables change no record twice, and stand in the order of their ids.
proof fn lemma_prepared_distinct(s: Seq<StagedTable>)
    requires
        all_wf(s),
    ensures
        staged::changes_distinct(stored_tables(s)),
        commit_laws::changes_sorted(stored_tables(s)),
{
    let v = stored_tables(s);
    assert forall|i: int, j: int, k: int, l: int| #[trigger] staged::is_staged(v, i, j) && #[trigger] staged::is_staged(v, k, l)
        && v[i].name == v[k].name && v[i].changes[j].id == v[k].changes[l].id implies i == k && j == l by {
        assert(s[i].name@ == s[k].name@);
        assert(s[i].wf());
        bytes::lemma_lex_irreflexive(encode_utf8(s[i].operations@[j].id@));
        if j < l {
            assert(bytes::lex_lt(encode_utf8(s[i].operations@[j].id@), encode_utf8(s[i].operations@[l].id@)));
        }
        if l < j {
            assert(bytes::lex_lt(encode_utf8(s[i].operations@[l].id@), encode_utf8(s[i].operations@[j].id@)));
        }
    }
    assert forall|i: int, j: int, k: int|
        #[trigger] staged::is_staged(v, i, j) && #[trigger] staged::is_staged(v, i, k) && j < k implies bytes::lex_lt(
        encode_utf8(v[i].changes[j].id),
        encode_utf8(v[i].changes[k].id),
    ) by {
        assert(s[i].wf());
        assert(bytes::lex_lt(encode_utf8(s[i].operations@[j].id@), encode_utf8(s[i].operations@[k].id@)));
    }
}

/// Arranging keeps every table that has changes, drops the others, and puts
/// the names in order.
pub proof fn lemma_arranged(s: Seq<StagedTable>)
    ensures
        names_ordered(arranged(s)),
        forall|x: StagedTable| #[trigger] arranged(s).contains(x) <==> s.contains(x) && x.operations@.len() > 0,
    decreases s.len(),
{
    if s.len() > 0 {
        let rest = s.drop_first();
        lemma_arranged(rest);
        lemma_insert_named(arranged(rest), s.first());
        assert forall|x: StagedTable| #[trigger] arranged(s).contains(x) <==> s.contains(x) && x.operations@.len() > 0 by {
            if s.contains(x) {
                let k = s.index_of(x);
                if k > 0 {
                    assert(rest[k - 1] == x);
                }
            }
            if rest.contains(x) {
                assert(s[rest.index_of(x) + 1] == x);
            }
            if x == s.first() {
                assert(s[0] == x);
            }
            assert(arranged(rest).contains(x) <==> rest.contains(x) && x.operations@.len() > 0);
        }
    }
}

fn place_named(list: &mut Vec<StagedTable>, t: StagedTable)
    ensures
        final(list)@ == insert_named(old(list)@, t),
{
    let ghost start = list@;
    let mut p: usize = list.len();
    let mut done: bool = p == 0;
    assert(start.subrange(0, p as int) =~= start);
    assert(insert_named(start, t) + start.subrange(p as int, start.len() as int) =~= insert_named(start, t));
    while !done
        invariant
            list@ == start,
            p <= start.len(),
            p == 0 ==> done,
            insert_named(start, t) == insert_named(start.subrange(0, p as int), t) + start.subrange(p as int, start.len() as int),
            done && p > 0 ==> !bytes::lex_lt(encode_utf8(t.name@), encode_utf8(start[p - 1].name@)),
        decreases p, (if done { 0int } else { 1int }),
    {
        proof {
            bytes::lemma_lex_trichotomy(encode_utf8(t.name@), encode_utf8(start[p - 1].name@));
        }
        match bytes::place(t.name.as_str().as_bytes(), list[p - 1].name.as_str().as_bytes()) {
            Place::Before => {
                proof {
                    let head = start.subrange(0, p as int);
                    assert(head.drop_last() =~= start.subrange(0, p - 1));
                    assert(head.last() == start[p - 1]);
                    assert(insert_named(head, t) + start.subrange(p as int, start.len() as int) =~= insert_named(head.drop_last(), t)
                        + start.subrange(p - 1, start.len() as int));
                }
                p = p - 1;
                if p == 0 {
                    done = true;
                }
            },
            _ => {
                done = true;
            },
        }
    }
    proof {
        let head = start.subrange(0, p as int);
        if p > 0 {
            assert(head.last() == start[p - 1]);
        }
        assert(insert_named(head, t) =~= head.push(t));
        assert(start.insert(p as int, t) =~= head.push(t) + start.subrange(p as int, start.len() as int));
    }
    list.insert(p, t);
}

/// The tables that have changes, in the order of their names.
pub fn arrange(tables: Vec<StagedTable>) -> (r: Vec<StagedTable>)
    ensures
        r@ == arranged(tables@),
{
    let ghost all = tables@;
    let mut tables = tables;
    let mut out: Vec<StagedTable> = Vec::new();
    assert(all.subrange(all.len() as int, all.len() as int) =~= Seq::<StagedTable>::empty());
    while tables.len() > 0
        invariant
            tables@.len() <= all.len(),
            tables@ == all.subrange(0, tables@.len() as int),
            out@ == arranged(all.subrange(tables@.len() as int, all.len() as int)),
        decreases tables@.len(),
    {
        let ghost n = tables@.len() as int;
        match tables.pop() {
            Some(t) => {
                proof {
                    let part = all.subrange(n - 1, all.len() as int);
                    assert(part.drop_first() =~= all.subrange(n, all.len() as int));
                    assert(part.first() == t);
                    assert(tables@ =~= all.subrange(0, n - 1));
                }
                if t.operations.len() > 0 {
                    place_named(&mut out, t);
                }
            },
            None => {},
        }
    }
    assert(all.subrange(0, all.len() as int) =~= all);
    out
}

// ---- Stored records ---------------------------------------------------------

pub open spec fn arena_error() -> ErrorView {
    ErrorView::InvalidArgument("transaction payload arena exceeds the 4-GiB WAL limit"@)
}

/// The stored form of a change.
pub open spec fn stored_payload(t: TableView, c: StagedChange) -> Option<Seq<u8>> {
    match c.operation {
        Some(rec) => Some(
            payload::payload_bytes(record::ordered_fields(t.columns, rec@, record::external_views(c.external@))),
        ),
        None => None,
    }
}

pub open spec fn change_fits(t: TableView, c: StagedChange) -> bool {
    c.operation matches Some(rec) ==> record::record_fits(t.columns, rec@, record::external_views(c.external@))
}

pub open spec fn stored_change(t: TableView, c: StagedChange) -> ChangeView {
    ChangeView { id: c.id@, operation: apply::option_record(c.operation), payload: stored_payload(t, c) }
}

pub open spec fn stored_table(t: StagedTable) -> StagedView {
    StagedView {
        name: t.name@,
        schema: t.schema@,
        changes: Seq::new(t.operations@.len(), |j: int| stored_change(t.schema@, t.operations@[j])),
    }
}

pub open spec fn stored_tables(s: Seq<StagedTable>) -> Seq<StagedView> {
    Seq::new(s.len(), |i: int| stored_table(s[i]))
}

pub open spec fn payload_len(c: ChangeView) -> int {
    match c.payload {
        Some(p) => p.len() as int,
        None => 0,
    }
}

/// The bytes of the first `n` payloads of a table.
pub open spec fn table_payloads(t: StagedView, n: int) -> int
    decreases n,
{
    if n <= 0 {
        0
    } else {
        table_payloads(t, n - 1) + payload_len(t.changes[n - 1])
    }
}

/// The bytes of the payloads of the first `n` tables.
pub open spec fn all_payloads(s: Seq<StagedView>, n: int) -> int
    decreases n,
{
    if n <= 0 {
        0
    } else {
        all_payloads(s, n - 1) + table_payloads(s[n - 1], s[n - 1].changes.len() as int)
    }
}

/// Every record of the table has a stored form.
pub open spec fn table_fits(t: StagedTable) -> bool {
    forall|j: int| 0 <= j < t.operations@.len() ==> change_fits(t.schema@, #[trigger] t.operations@[j])
}

pub open spec fn all_fit(s: Seq<StagedTable>) -> bool {
    forall|i: int| 0 <= i < s.len() ==> table_fits(#[trigger] s[i])
}

proof fn lemma_payloads(s: Seq<StagedView>, n: int)
    requires
        0 <= n <= s.len(),
    ensures
        0 <= all_payloads(s, n) <= all_payloads(s, s.len() as int),
    decreases s.len() - n,
{
    lemma_payloads_positive(s, n);
    if n < s.len() {
        lemma_payloads(s, n + 1);
        lemma_table_payloads(s[n], 0);
    }
}

proof fn lemma_payloads_positive(s: Seq<StagedView>, n: int)
    requires
        0 <= n <= s.len(),
    ensures
        0 <= all_payloads(s, n),
    decreases n,
{
    if n > 0 {
        lemma_payloads_positive(s, n - 1);
        lemma_table_payloads(s[n - 1], 0);
    }
}

proof fn lemma_table_payloads(t: StagedView, n: int)
    requires
        0 <= n <= t.changes.len(),
    ensures
        0 <= table_payloads(t, n) <= table_payloads(t, t.changes.len() as int),
    decreases t.changes.len() - n,
{
    lemma_table_payloads_positive(t, n);
    if n < t.changes.len() {
        lemma_table_payloads(t, n + 1);
    }
}

proof fn lemma_table_payloads_positive(t: StagedView, n: int)
    requires
        0 <= n <= t.changes.len(),
    ensures
        0 <= table_payloads(t, n),
    decreases n,
{
    if n > 0 {
        lemma_table_payloads_positive(t, n - 1);
    }
}

fn is_encodable(v: &Value) -> (r: bool)
    ensures
        r == value::encodable(v@),
{
    match v {
        Value::Text(s) => bytes::byte_len(s.as_str()) <= u32::MAX as usize,
        Value::Blob(data) => data.len() <= u32::MAX as usize,
        Value::Json(s) => bytes::byte_len(s.as_str()) <= u32::MAX as usize,
        Value::Vector(w) => w.len() <= u32::MAX as usize,
        _ => true,
    }
}

/// Whether a record has a stored form.
pub fn has_stored_form(schema: &TableSchema, rec: &Record, external: &Vec<Option<BlobRef>>) -> (r: bool)
    requires
        rec.wf(),
        state::schema_fits(schema@),
        external@.len() == schema@.columns.len(),
    ensures
        r == record::record_fits(schema@.columns, rec@, record::external_views(external@)),
{
    let mut i: usize = 0;
    while i < schema.columns.len()
        invariant
            rec.wf(),
            external@.len() == schema@.columns.len(),
            i <= schema.columns@.len(),
            forall|j: int|
                0 <= j < i ==> value::storable(
                    record::column_stored(#[trigger] schema@.columns[j], rec@, record::external_views(external@)[j]),
                ),
        decreases schema.columns@.len() - i,
    {
        let col: &Column = &schema.columns[i];
        assert(schema@.columns[i as int] == col@);
        assert(record::external_views(external@)[i as int] == record::external_view(external@[i as int]));
        let fits: bool = match &external[i] {
            Some(found) => bytes::byte_len(found.name.as_str()) <= u16::MAX as usize,
            None => match rec.get(col.name.as_str().as_bytes()) {
                Some(v) => is_encodable(v),
                None => true,
            },
        };
        if !fits {
            proof {
                assert(!value::storable(
                    record::column_stored(schema@.columns[i as int], rec@, record::external_views(external@)[i as int]),
                ));
            }
            return false;
        }
        i = i + 1;
    }
    true
}

fn none_external(n: usize) -> (r: Vec<Option<BlobRef>>)
    ensures
        r@.len() == n,
        record::external_views(r@) == staged::all_inline(n as nat),
{
    let mut out: Vec<Option<BlobRef>> = Vec::new();
    while out.len() < n
        invariant
            out@.len() <= n,
            forall|i: int| 0 <= i < out@.len() ==> (#[trigger] out@[i]) is None,
        decreases n - out@.len(),
    {
        out.push(None);
    }
    assert(record::external_views(out@) =~= staged::all_inline(n as nat));
    out
}

impl Replay {
    /// What a change comes to over a version of its record, in its stored form.
    /// It is an error where the record has none.
    pub fn over(schema: &TableSchema, version: u64, outcome: Option<Record>) -> (r: Result<Replay, Error>)
        requires
            state::schema_fits(schema@),
            outcome matches Some(rec) ==> rec.wf(),
        ensures
            match r {
                Ok(replay) => {
                    &&& replay.version == version
                    &&& staged::replay_stored(schema@, Some(replay))
                    &&& match outcome {
                        None => replay.outcome is None,
                        Some(rec) => replay.outcome matches Some(p) && p.record == rec,
                    }
                },
                Err(e) => e@ == arena_error() && (outcome matches Some(rec) && !record::record_fits(
                    schema@.columns,
                    rec@,
                    staged::all_inline(schema@.columns.len()),
                )),
            },
    {
        match outcome {
            None => Ok(Replay { version, outcome: None }),
            Some(rec) => {
                let external = none_external(schema.columns.len());
                if !has_stored_form(schema, &rec, &external) {
                    return Err(invalid("transaction payload arena exceeds the 4-GiB WAL limit"));
                }
                let payload = Arc::new(encode_record_ordered(schema, &rec, &external));
                Ok(Replay { version, outcome: Some(Replayed { record: rec, payload }) })
            },
        }
    }
}

/// The record that a replay makes.
pub open spec fn replay_record(p: Replay) -> Option<Record> {
    match p.outcome {
        Some(done) => Some(done.record),
        None => None,
    }
}

/// What replaying the steps of a delta update over a version gives.
pub open spec fn replayed_over<F: Fn(&str, &Record) -> Result<Option<Record>, Error>>(
    st: &State,
    t: TableView,
    id: &str,
    steps: Seq<F>,
    v: VersionView,
    r: Result<Option<Replay>, Error>,
) -> bool {
    if v.kind.is_tombstone() || commit::has_blob_column(t) {
        r matches Ok(Some(p)) && p.version == v.version && p.outcome is None
    } else {
        match segment::record_of(st.images(), st.blobs@, v.kind) {
            Err(e) => r is Err && r->Err_0@ == e,
            Ok(first) => match r {
                Ok(Some(p)) => p.version == v.version && staged::replay_stored(t, Some(p)) && commit::steps_outcome(
                    steps,
                    id,
                    first,
                    replay_record(p),
                ),
                Ok(None) => false,
                Err(e) => e@ == arena_error() && exists|rec: Record|
                    #[trigger] commit::steps_outcome(steps, id, first, Some(rec)) && !record::record_fits(
                        t.columns,
                        rec@,
                        staged::all_inline(t.columns.len()),
                    ),
            },
        }
    }
}

/// Replay the steps of a delta update over the latest version of its record, so
/// that the change can be committed over it. There is nothing to replay over
/// where the record has no version.
pub fn replay_latest<F: Fn(&str, &Record) -> Result<Option<Record>, Error>>(
    st: &State,
    schema: &TableSchema,
    id: &str,
    steps: &Vec<F>,
) -> (r: Result<Option<Replay>, Error>)
    requires
        st.wf(),
        state::schema_fits(schema@),
        commit::steps_ok(steps@, id),
    ensures
        match st.latest(schema@.name, encode_utf8(id@)) {
            Err(m) => r is Err && r->Err_0@ == ErrorView::Corrupt(m),
            Ok(None) => r is Ok && r->Ok_0 is None,
            Ok(Some(v)) => replayed_over(st, schema@, id, steps@, v, r),
        },
{
    let latest = match st.latest_owned(schema.name.as_str(), id) {
        Ok(Some(v)) => v,
        Ok(None) => {
            return Ok(None);
        },
        Err(e) => {
            return Err(e);
        },
    };
    match commit::rebase_change(st, schema, id, steps, &latest) {
        Err(e) => Err(e),
        Ok(out) => match Replay::over(schema, latest.version, out) {
            Ok(p) => Ok(Some(p)),
            Err(e) => Err(e),
        },
    }
}

/// Every change of `done` is the stored form of the change it came from.
pub open spec fn carries(done: Seq<PreparedChange>, t: TableView, from: Seq<StagedChange>) -> bool {
    &&& done.len() == from.len()
    &&& forall|j: int| 0 <= j < done.len() ==> {
        &&& (#[trigger] done[j]).wf()
        &&& done[j]@ == stored_change(t, from[j])
        &&& done[j].replay == from[j].replay
    }
}

/// Put the changes of a table in their stored form. `taken` is how much of the
/// arena is taken.
fn store_table(table: StagedTable, taken: u64) -> (r: Result<(PreparedTable, u64), Error>)
    requires
        table.wf(),
        taken <= u32::MAX,
    ensures
        match r {
            Ok(done) => {
                &&& table_fits(table)
                &&& done.0.name@ == table.name@
                &&& done.0.schema@ == table.schema@
                &&& carries(done.0.changes@, table.schema@, table.operations@)
                &&& done.1 == taken + table_payloads(stored_table(table), table.operations@.len() as int)
                &&& done.1 <= u32::MAX
            },
            Err(e) => e@ == arena_error() && (!table_fits(table) || taken + table_payloads(
                stored_table(table),
                table.operations@.len() as int,
            ) > u32::MAX),
        },
{
    let ghost from = table.operations@;
    let ghost view = stored_table(table);
    let ghost whole = table;
    let StagedTable { name, schema, operations } = table;
    let mut left = operations;
    // The changes leave the list from its end, so they are turned round first.
    let mut waiting: Vec<StagedChange> = Vec::new();
    while left.len() > 0
        invariant
            left@.len() + waiting@.len() == from.len(),
            left@ == from.subrange(0, left@.len() as int),
            forall|k: int| 0 <= k < waiting@.len() ==> #[trigger] waiting@[k] == from[from.len() - 1 - k],
        decreases left@.len(),
    {
        let ghost n = left@.len() as int;
        match left.pop() {
            Some(c) => {
                assert(left@ =~= from.subrange(0, n - 1));
                waiting.push(c);
            },
            None => {},
        }
    }
    let mut changes: Vec<PreparedChange> = Vec::new();
    let mut used: u64 = taken;
    while waiting.len() > 0
        invariant
            whole == table,
            whole.wf(),
            whole.schema == schema,
            whole.operations@ == from,
            view == stored_table(whole),
            changes@.len() + waiting@.len() == from.len(),
            forall|k: int| 0 <= k < waiting@.len() ==> #[trigger] waiting@[k] == from[from.len() - 1 - k],
            carries(changes@, schema@, from.subrange(0, changes@.len() as int)),
            forall|j: int| 0 <= j < changes@.len() ==> change_fits(schema@, #[trigger] from[j]),
            used == taken + table_payloads(view, changes@.len() as int),
            used <= u32::MAX,
        decreases waiting@.len(),
    {
        let ghost j = changes@.len() as int;
        let ghost before = changes@;
        match waiting.pop() {
            Some(c) => {
                assert(c == from[j]);
                assert(whole.operations@[j].wf());
                assert(view.changes[j] == stored_change(schema@, from[j]));
                proof {
                    lemma_table_payloads(view, j + 1);
                }
                let StagedChange { id, operation, external, replay, token_bytes: _ } = c;
                let payload: Option<Arc<Vec<u8>>> = match &operation {
                    Some(rec) => {
                        if !has_stored_form(&schema, rec, &external) {
                            assert(!change_fits(schema@, from[j]));
                            return Err(invalid("transaction payload arena exceeds the 4-GiB WAL limit"));
                        }
                        let data = encode_record_ordered(&schema, rec, &external);
                        if data.len() as u64 > u32::MAX as u64 - used {
                            return Err(invalid("transaction payload arena exceeds the 4-GiB WAL limit"));
                        }
                        used = used + data.len() as u64;
                        Some(Arc::new(data))
                    },
                    None => None,
                };
                changes.push(PreparedChange { id, operation, payload, replay });
                proof {
                    let part = from.subrange(0, j + 1);
                    assert forall|q: int| 0 <= q < changes@.len() implies ({
                        &&& (#[trigger] changes@[q]).wf()
                        &&& changes@[q]@ == stored_change(schema@, part[q])
                        &&& changes@[q].replay == part[q].replay
                    }) by {
                        if q < j {
                            assert(changes@[q] == before[q]);
                            assert(part[q] == from.subrange(0, j)[q]);
                        }
                    }
                }
            },
            None => {},
        }
    }
    assert(from.subrange(0, from.len() as int) =~= from);
    Ok((PreparedTable { name, schema, changes }, used))
}

/// Every prepared table came from the staged table at its place.
pub open spec fn prepared_from(done: Seq<PreparedTable>, from: Seq<StagedTable>) -> bool {
    &&& done.len() == from.len()
    &&& forall|i: int| 0 <= i < done.len() ==> {
        &&& (#[trigger] done[i]).name@ == from[i].name@
        &&& done[i].schema@ == from[i].schema@
        &&& carries(done[i].changes@, from[i].schema@, from[i].operations@)
    }
}

/// What a prepared transaction holds, by views.
pub proof fn lemma_prepared_views(done: Seq<PreparedTable>, from: Seq<StagedTable>)
    requires
        prepared_from(done, from),
        all_wf(from),
    ensures
        model::views(done) == stored_tables(from),
        staged::tables_wf(done),
{
    assert forall|i: int| 0 <= i < done.len() implies #[trigger] model::views(done)[i] == stored_tables(from)[i] by {
        assert(carries(done[i].changes@, from[i].schema@, from[i].operations@));
        assert(done[i]@.changes =~= stored_table(from[i]).changes);
    }
    assert(model::views(done) =~= stored_tables(from));
    assert forall|i: int| 0 <= i < done.len() implies (#[trigger] done[i]).wf() by {
        assert(carries(done[i].changes@, from[i].schema@, from[i].operations@));
        assert(from[i].wf());
        assert forall|j: int| 0 <= j < done[i].changes@.len() implies staged::replay_stored(
            done[i].schema@,
            (#[trigger] done[i].changes@[j]).replay,
        ) by {
            assert(done[i].changes@[j].replay == from[i].operations@[j].replay);
        }
    }
}

/// Put all tables in their stored form.
fn store_tables(tables: Vec<StagedTable>) -> (r: Result<Vec<PreparedTable>, Error>)
    requires
        all_wf(tables@),
    ensures
        match r {
            Ok(done) => {
                &&& all_fit(tables@)
                &&& all_payloads(stored_tables(tables@), tables@.len() as int) <= u32::MAX
                &&& prepared_from(done@, tables@)
            },
            Err(e) => e@ == arena_error() && (!all_fit(tables@) || all_payloads(stored_tables(tables@), tables@.len() as int)
                > u32::MAX),
        },
{
    let ghost from = tables@;
    let ghost view = stored_tables(from);
    let mut left = tables;
    let mut waiting: Vec<StagedTable> = Vec::new();
    while left.len() > 0
        invariant
            left@.len() + waiting@.len() == from.len(),
            left@ == from.subrange(0, left@.len() as int),
            forall|k: int| 0 <= k < waiting@.len() ==> #[trigger] waiting@[k] == from[from.len() - 1 - k],
        decreases left@.len(),
    {
        let ghost n = left@.len() as int;
        match left.pop() {
            Some(t) => {
                assert(left@ =~= from.subrange(0, n - 1));
                waiting.push(t);
            },
            None => {},
        }
    }
    let mut out: Vec<PreparedTable> = Vec::new();
    let mut used: u64 = 0;
    while waiting.len() > 0
        invariant
            from == tables@,
            all_wf(from),
            view == stored_tables(from),
            out@.len() + waiting@.len() == from.len(),
            forall|k: int| 0 <= k < waiting@.len() ==> #[trigger] waiting@[k] == from[from.len() - 1 - k],
            prepared_from(out@, from.subrange(0, out@.len() as int)),
            forall|i: int| 0 <= i < out@.len() ==> table_fits(#[trigger] from[i]),
            used == all_payloads(view, out@.len() as int),
            used <= u32::MAX,
        decreases waiting@.len(),
    {
        let ghost i = out@.len() as int;
        let ghost before = out@;
        match waiting.pop() {
            Some(t) => {
                assert(t == from[i]);
                assert(view[i] == stored_table(from[i]));
                proof {
                    lemma_payloads(view, i + 1);
                }
                match store_table(t, used) {
                    Ok(done) => {
                        out.push(done.0);
                        used = done.1;
                        proof {
                            let part = from.subrange(0, i + 1);
                            assert forall|q: int| 0 <= q < out@.len() implies ({
                                &&& (#[trigger] out@[q]).name@ == part[q].name@
                                &&& out@[q].schema@ == part[q].schema@
                                &&& carries(out@[q].changes@, part[q].schema@, part[q].operations@)
                            }) by {
                                if q < i {
                                    assert(out@[q] == before[q]);
                                    assert(part[q] == from.subrange(0, i)[q]);
                                }
                            }
                        }
                    },
                    Err(e) => {
                        return Err(e);
                    },
                }
            },
            None => {},
        }
    }
    assert(from.subrange(0, from.len() as int) =~= from);
    Ok(out)
}

// ---- What a commit costs ----------------------------------------------------

/// What the first `n` vector indexes charge for a record.
pub open spec fn vector_charge(t: TableView, rec: Option<RecordView>, id: Seq<char>, n: int) -> int
    decreases n,
{
    if n <= 0 {
        0
    } else {
        let def = t.vector_indexes[n - 1];
        vector_charge(t, rec, id, n - 1) + (match apply::vector_in(rec, def.column) {
            Some(w) => w.len() * (if def.quantized {
                1int
            } else {
                4
            }) + def.m * 16 + encode_utf8(id).len() + 192,
            None => 0,
        })
    }
}

/// What the primary index and the equality indexes charge for a change.
pub open spec fn base_charge(t: TableView, c: ChangeView) -> int {
    let id = encode_utf8(c.id).len() as int;
    id + payload_len(c) + 144 + t.indexes.len() * (2 * id + 320)
}

/// The estimated bytes that a change takes in the index deltas. An update
/// charges both for what it removes and for what it adds.
pub open spec fn change_charge(st: &State, t: StagedView, j: int, tokens: int) -> Result<int, ErrorView> {
    let c = t.changes[j];
    let n = t.schema.vector_indexes.len() as int;
    if t.schema.text_indexes.len() == 0 && n == 0 {
        Ok(base_charge(t.schema, c))
    } else {
        let put = base_charge(t.schema, c) + tokens + vector_charge(t.schema, c.operation, c.id, n);
        match st.latest(t.name, encode_utf8(c.id)) {
            Err(m) => Err(ErrorView::Corrupt(m)),
            Ok(Some(v)) => if v.kind.is_tombstone() {
                Ok(put)
            } else {
                match segment::record_of(st.images(), st.blobs@, v.kind) {
                    Err(e) => Err(e),
                    Ok(rec) => Ok(put + vector_charge(t.schema, Some(rec), c.id, n)),
                }
            },
            Ok(None) => Ok(put),
        }
    }
}

/// The charge of the first `n` changes of a table.
pub open spec fn table_charge(st: &State, t: StagedView, tokens: Seq<usize>, n: int) -> Result<int, ErrorView>
    decreases n,
{
    if n <= 0 {
        Ok(0)
    } else {
        match table_charge(st, t, tokens, n - 1) {
            Err(e) => Err(e),
            Ok(a) => match change_charge(st, t, n - 1, tokens[n - 1] as int) {
                Err(e) => Err(e),
                Ok(b) => Ok(a + b),
            },
        }
    }
}

/// The charge of the first `n` tables.
pub open spec fn all_charge(st: &State, s: Seq<StagedView>, tokens: Seq<Vec<usize>>, n: int) -> Result<int, ErrorView>
    decreases n,
{
    if n <= 0 {
        Ok(0)
    } else {
        match all_charge(st, s, tokens, n - 1) {
            Err(e) => Err(e),
            Ok(a) => match table_charge(st, s[n - 1], tokens[n - 1]@, s[n - 1].changes.len() as int) {
                Err(e) => Err(e),
                Ok(b) => Ok(a + b),
            },
        }
    }
}

/// A product, or the greatest number where it is too large.
fn product(a: usize, b: usize) -> (r: usize)
    ensures
        r == record::capped(a * b),
{
    match a.checked_mul(b) {
        Some(r) => r,
        None => usize::MAX,
    }
}

proof fn lemma_capped_product(n: int, b: int)
    requires
        0 <= n <= usize::MAX,
        0 <= b,
    ensures
        record::capped(n * record::capped(b)) == record::capped(n * b),
        n * b >= 0,
{
    assert(n * b >= 0) by (nonlinear_arith)
        requires
            n >= 0,
            b >= 0,
    ;
    if b > usize::MAX {
        if n == 0 {
            assert(n * b == 0);
        } else {
            assert(n * b >= b) by (nonlinear_arith)
                requires
                    n >= 1,
                    b >= 0,
            ;
            assert(n * usize::MAX >= usize::MAX) by (nonlinear_arith)
                requires
                    n >= 1,
            ;
        }
    }
}

proof fn lemma_vector_charge(t: TableView, rec: Option<RecordView>, id: Seq<char>, n: int)
    ensures
        vector_charge(t, rec, id, n) >= 0,
    decreases n,
{
    if n > 0 {
        lemma_vector_charge(t, rec, id, n - 1);
    }
}

/// What the vector indexes charge for a record.
fn vector_bytes(schema: &TableSchema, rec: &Record, id: &str) -> (r: usize)
    requires
        rec.wf(),
    ensures
        r == record::capped(vector_charge(schema@, Some(rec@), id@, schema@.vector_indexes.len() as int)),
{
    let mut total: usize = 0;
    let mut i: usize = 0;
    while i < schema.vector_indexes.len()
        invariant
            rec.wf(),
            i <= schema.vector_indexes@.len(),
            total == record::capped(vector_charge(schema@, Some(rec@), id@, i as int)),
        decreases schema.vector_indexes@.len() - i,
    {
        let def = &schema.vector_indexes[i];
        assert(schema@.vector_indexes[i as int] == def@);
        proof {
            lemma_vector_charge(schema@, Some(rec@), id@, i as int);
        }
        match rec.get(def.column.as_str().as_bytes()) {
            Some(Value::Vector(w)) => {
                let scalar: usize = if def.quantized {
                    1
                } else {
                    4
                };
                assert(w@.len() * scalar == (if def.quantized { w@.len() as int } else { (4 * w@.len()) as int }));
                total = total.saturating_add(product(w.len(), scalar)).saturating_add(product(def.m, 16)).saturating_add(
                    bytes::byte_len(id),
                ).saturating_add(192);
            },
            _ => {},
        }
        i = i + 1;
    }
    total
}

proof fn lemma_base_charge(t: TableView, c: ChangeView)
    ensures
        base_charge(t, c) >= 0,
{
    let id = encode_utf8(c.id).len() as int;
    assert(t.indexes.len() * (2 * id + 320) >= 0) by (nonlinear_arith)
        requires
            id >= 0,
    ;
}

/// The estimated bytes that one change takes in the index deltas.
fn estimate_change(st: &State, table: &PreparedTable, j: usize, tokens: usize) -> (r: Result<usize, Error>)
    requires
        st.wf(),
        table.wf(),
        j < table.changes@.len(),
    ensures
        match change_charge(st, table@, j as int, tokens as int) {
            Ok(n) => r is Ok && r->Ok_0 == record::capped(n) && n >= 0,
            Err(e) => r is Err && r->Err_0@ == e,
        },
{
    let change = &table.changes[j];
    let schema = &table.schema;
    assert(table@.changes[j as int] == change@);
    assert(change.wf());
    let id = change.id.as_str();
    let id_len: usize = bytes::byte_len(id);
    let size: usize = match &change.payload {
        Some(p) => p.len(),
        None => 0,
    };
    let index_count: usize = schema.indexes.len();
    proof {
        lemma_capped_product(index_count as int, 2 * id_len + 320);
        lemma_base_charge(schema@, change@);
    }
    let each: usize = id_len.saturating_add(id_len).saturating_add(320);
    let mut total: usize = id_len.saturating_add(size).saturating_add(144).saturating_add(product(index_count, each));
    assert(total == record::capped(base_charge(schema@, change@)));
    if schema.text_indexes.len() == 0 && schema.vector_indexes.len() == 0 {
        return Ok(total);
    }
    let ghost n = schema@.vector_indexes.len() as int;
    total = total.saturating_add(tokens);
    proof {
        lemma_vector_charge(schema@, change@.operation, change@.id, n);
    }
    match &change.operation {
        Some(rec) => {
            total = total.saturating_add(vector_bytes(schema, rec, id));
        },
        None => {
            proof {
                lemma_no_record(schema@, id@, n);
            }
        },
    }
    match st.latest_owned(table.name.as_str(), id) {
        Err(e) => Err(e),
        Ok(None) => Ok(total),
        Ok(Some(v)) => {
            if v.is_tombstone() {
                return Ok(total);
            }
            match read_record_kind(&st.blobs, &st.segments, &v.kind) {
                Err(e) => Err(e),
                Ok(rec) => {
                    proof {
                        lemma_vector_charge(schema@, Some(rec@), change@.id, n);
                    }
                    Ok(total.saturating_add(vector_bytes(schema, &rec, id)))
                },
            }
        },
    }
}

proof fn lemma_no_record(t: TableView, id: Seq<char>, n: int)
    ensures
        vector_charge(t, None, id, n) == 0,
    decreases n,
{
    if n > 0 {
        lemma_no_record(t, id, n - 1);
    }
}

pub open spec fn tokens_fit(staged: Seq<PreparedTable>, tokens: Seq<Vec<usize>>) -> bool {
    &&& tokens.len() == staged.len()
    &&& forall|i: int| 0 <= i < tokens.len() ==> (#[trigger] tokens[i])@.len() == staged[i].changes@.len()
}

/// The estimated bytes that a commit takes in the index deltas. `tokens` holds,
/// for each change, what the words of its texts charge.
pub fn estimate_staged_index_bytes(st: &State, staged: &Vec<PreparedTable>, tokens: &Vec<Vec<usize>>) -> (r: Result<usize, Error>)
    requires
        st.wf(),
        staged::tables_wf(staged@),
        tokens_fit(staged@, tokens@),
    ensures
        match all_charge(st, model::views(staged@), tokens@, staged@.len() as int) {
            Ok(n) => r is Ok && r->Ok_0 == record::capped(n),
            Err(e) => r is Err && r->Err_0@ == e,
        },
{
    let ghost all = model::views(staged@);
    let mut total: usize = 0;
    let ghost mut sum: int = 0;
    let mut i: usize = 0;
    while i < staged.len()
        invariant
            st.wf(),
            staged::tables_wf(staged@),
            tokens_fit(staged@, tokens@),
            all == model::views(staged@),
            i <= staged@.len(),
            all_charge(st, all, tokens@, i as int) == Ok::<int, ErrorView>(sum),
            sum >= 0,
            total == record::capped(sum),
        decreases staged@.len() - i,
    {
        let t = &staged[i];
        let tk = &tokens[i];
        assert(all[i as int] == t@);
        assert(t.wf());
        let ghost start = sum;
        let ghost mut part: int = 0;
        let mut j: usize = 0;
        while j < t.changes.len()
            invariant
                st.wf(),
                i < staged@.len(),
                *t == staged@[i as int],
                *tk == tokens@[i as int],
                t.wf(),
                tk@.len() == t.changes@.len(),
                all == model::views(staged@),
                all[i as int] == t@,
                j <= t.changes@.len(),
                all_charge(st, all, tokens@, i as int) == Ok::<int, ErrorView>(start),
                table_charge(st, t@, tk@, j as int) == Ok::<int, ErrorView>(part),
                sum == start + part,
                start >= 0 && part >= 0,
                total == record::capped(sum),
            decreases t.changes@.len() - j,
        {
            match estimate_change(st, t, j, tk[j]) {
                Err(e) => {
                    proof {
                        lemma_table_charge_fails(st, t@, tk@, j + 1);
                        lemma_all_charge_fails(st, all, tokens@, i + 1);
                    }
                    return Err(e);
                },
                Ok(n) => {
                    total = total.saturating_add(n);
                    proof {
                        let one = change_charge(st, t@, j as int, tk@[j as int] as int)->Ok_0;
                        part = part + one;
                        sum = sum + one;
                    }
                },
            }
            j = j + 1;
        }
        i = i + 1;
    }
    Ok(total)
}

proof fn lemma_table_charge_fails(st: &State, t: StagedView, tokens: Seq<usize>, n: int)
    requires
        0 <= n <= t.changes.len(),
        table_charge(st, t, tokens, n) is Err,
    ensures
        table_charge(st, t, tokens, t.changes.len() as int) == table_charge(st, t, tokens, n),
    decreases t.changes.len() - n,
{
    if n < t.changes.len() {
        lemma_table_charge_fails(st, t, tokens, n + 1);
    }
}

proof fn lemma_all_charge_fails(st: &State, s: Seq<StagedView>, tokens: Seq<Vec<usize>>, n: int)
    requires
        0 <= n <= s.len(),
        all_charge(st, s, tokens, n) is Err,
    ensures
        all_charge(st, s, tokens, s.len() as int) == all_charge(st, s, tokens, n),
    decreases s.len() - n,
{
    if n < s.len() {
        lemma_all_charge_fails(st, s, tokens, n + 1);
    }
}

// ---- Conflicts that already stand -------------------------------------------

/// Why a change of a table with equality or text indexes can only fail: its
/// record moved on after the snapshot and cannot be replayed over, or cannot
/// be read.
pub open spec fn early_error(st: &State, t: StagedView, c: PreparedChange, snapshot: u64) -> Option<ErrorView> {
    if t.schema.indexes.len() == 0 && t.schema.text_indexes.len() == 0 {
        None
    } else {
        match st.latest(t.name, encode_utf8(c.id@)) {
            Err(m) => Some(ErrorView::Corrupt(m)),
            Ok(entry) => if c.replay is None && commit::moved_on(entry, snapshot) {
                Some(changed_message(t.name, c.id@))
            } else {
                match commit::prior_of(st, t.schema, entry) {
                    Err(e) => Some(e),
                    Ok(_) => None,
                }
            },
        }
    }
}

pub open spec fn early_at(st: &State, staged: Seq<PreparedTable>, i: int, j: int, snapshot: u64, e: ErrorView) -> bool {
    &&& 0 <= i < staged.len()
    &&& 0 <= j < staged[i].changes@.len()
    &&& early_error(st, staged[i]@, staged[i].changes@[j], snapshot) == Some(e)
}

fn early_check(st: &State, table: &PreparedTable, change: &PreparedChange, snapshot: u64) -> (r: Result<(), Error>)
    requires
        st.inv(),
    ensures
        match early_error(st, table@, *change, snapshot) {
            None => r is Ok,
            Some(e) => r is Err && r->Err_0@ == e,
        },
{
    let schema = &table.schema;
    if schema.indexes.len() == 0 && schema.text_indexes.len() == 0 {
        return Ok(());
    }
    let name = table.name.as_str();
    let id = change.id.as_str();
    let entry: Option<VersionEntry> = if st.id_is_above_high_watermark(name, id) {
        None
    } else {
        match st.latest_owned(name, id) {
            Ok(entry) => entry,
            Err(e) => {
                return Err(e);
            },
        }
    };
    assert(st.latest(table@.name, encode_utf8(id@)) == Ok::<Option<VersionView>, Seq<char>>(primary::option_view(entry)));
    match &entry {
        None => Ok(()),
        Some(v) => {
            if change.replay.is_none() && v.version > snapshot {
                return Err(Error::Conflict(name.to_owned().concat("/").concat(id).concat(" changed after this transaction began")));
            }
            if v.is_tombstone() {
                return Ok(());
            }
            match read_record_kind(&st.blobs, &st.segments, &v.kind) {
                Ok(_) => Ok(()),
                Err(e) => Err(e),
            }
        },
    }
}

/// Report a conflict that already stands, before the transaction waits for its
/// turn.
pub fn early_conflict(st: &State, staged: &Vec<PreparedTable>, snapshot: u64) -> (r: Result<(), Error>)
    requires
        st.inv(),
    ensures
        r matches Err(e) ==> exists|i: int, j: int|
            #[trigger] early_at(st, staged@, i, j, snapshot, e@) && forall|p: int, q: int, x: ErrorView|
                p < i || (p == i && q < j) ==> !#[trigger] early_at(st, staged@, p, q, snapshot, x),
        r is Ok ==> forall|i: int, j: int, e: ErrorView| !#[trigger] early_at(st, staged@, i, j, snapshot, e),
{
    let mut i: usize = 0;
    while i < staged.len()
        invariant
            st.inv(),
            i <= staged@.len(),
            forall|p: int, q: int, e: ErrorView| p < i ==> !#[trigger] early_at(st, staged@, p, q, snapshot, e),
        decreases staged@.len() - i,
    {
        let t = &staged[i];
        let mut j: usize = 0;
        while j < t.changes.len()
            invariant
                st.inv(),
                i < staged@.len(),
                *t == staged@[i as int],
                j <= t.changes@.len(),
                forall|p: int, q: int, e: ErrorView|
                    p < i || (p == i && q < j) ==> !#[trigger] early_at(st, staged@, p, q, snapshot, e),
            decreases t.changes@.len() - j,
        {
            match early_check(st, t, &t.changes[j], snapshot) {
                Ok(()) => {},
                Err(e) => {
                    assert(early_at(st, staged@, i as int, j as int, snapshot, e@));
                    return Err(e);
                },
            }
            j = j + 1;
        }
        i = i + 1;
    }
    Ok(())
}

// ---- The prepared transaction -----------------------------------------------

pub struct PreparedCommit {
    pub snapshot: u64,
    pub staged: Vec<PreparedTable>,
    /// The estimated bytes that the commit takes in the index deltas.
    pub incoming_index_bytes: usize,
}

impl PreparedCommit {
    pub open spec fn wf(&self) -> bool {
        &&& staged::tables_wf(self.staged@)
        &&& staged::changes_distinct(model::views(self.staged@))
    }
}

pub open spec fn over_limit(bytes: int, pool: int) -> ErrorView {
    ErrorView::MemoryLimit(
        "transaction needs an estimated "@ + text::decimal(bytes as nat) + " index-delta bytes, but the pool is "@
            + text::decimal(pool as nat) + " bytes; split the transaction or raise memory.index_delta_pool_bytes"@,
    )
}

pub open spec fn tokens_of(t: StagedTable) -> Seq<usize> {
    Seq::new(t.operations@.len(), |j: int| t.operations@[j].token_bytes)
}

/// The charges of the words of all changes.
pub open spec fn all_tokens(tokens: Seq<Vec<usize>>, s: Seq<StagedTable>) -> bool {
    &&& tokens.len() == s.len()
    &&& forall|i: int| 0 <= i < s.len() ==> (#[trigger] tokens[i])@ == tokens_of(s[i])
}

fn collect_tokens(tables: &Vec<StagedTable>) -> (r: Vec<Vec<usize>>)
    ensures
        all_tokens(r@, tables@),
{
    let mut out: Vec<Vec<usize>> = Vec::new();
    let mut i: usize = 0;
    while i < tables.len()
        invariant
            i <= tables@.len(),
            out@.len() == i,
            forall|p: int| 0 <= p < i ==> (#[trigger] out@[p])@ == tokens_of(tables@[p]),
        decreases tables@.len() - i,
    {
        let t = &tables[i];
        let mut list: Vec<usize> = Vec::new();
        let mut j: usize = 0;
        while j < t.operations.len()
            invariant
                i < tables@.len(),
                *t == tables@[i as int],
                j <= t.operations@.len(),
                list@.len() == j,
                forall|q: int| 0 <= q < j ==> #[trigger] list@[q] == t.operations@[q].token_bytes,
            decreases t.operations@.len() - j,
        {
            list.push(t.operations[j].token_bytes);
            j = j + 1;
        }
        assert(list@ =~= tokens_of(tables@[i as int]));
        out.push(list);
        i = i + 1;
    }
    out
}

/// What a transaction charges; `None` where a record that it changes cannot
/// be read.
pub open spec fn charge_of(st: &State, s: Seq<StagedTable>) -> Result<int, ErrorView> {
    let tokens = Seq::new(s.len(), |i: int| tokens_of(s[i]));
    charge_with(st, stored_tables(s), tokens, s.len() as int)
}

/// The charge of the first `n` tables, with the charges of words as sequences.
pub open spec fn charge_with(st: &State, s: Seq<StagedView>, tokens: Seq<Seq<usize>>, n: int) -> Result<int, ErrorView>
    decreases n,
{
    if n <= 0 {
        Ok(0)
    } else {
        match charge_with(st, s, tokens, n - 1) {
            Err(e) => Err(e),
            Ok(a) => match table_charge(st, s[n - 1], tokens[n - 1], s[n - 1].changes.len() as int) {
                Err(e) => Err(e),
                Ok(b) => Ok(a + b),
            },
        }
    }
}

proof fn lemma_charge_with(st: &State, s: Seq<StagedView>, lists: Seq<Vec<usize>>, tokens: Seq<Seq<usize>>, n: int)
    requires
        lists.len() == tokens.len() == s.len(),
        forall|i: int| 0 <= i < s.len() ==> (#[trigger] lists[i])@ == tokens[i],
        0 <= n <= s.len(),
    ensures
        all_charge(st, s, lists, n) == charge_with(st, s, tokens, n),
    decreases n,
{
    if n > 0 {
        lemma_charge_with(st, s, lists, tokens, n - 1);
        assert(lists[n - 1]@ == tokens[n - 1]);
    }
}

/// Why a transaction cannot be prepared: the first of the reasons in the order
/// in which they are looked for.
pub open spec fn prepare_error(
    st: &State,
    tables: Seq<StagedTable>,
    snapshot: u64,
    pool: int,
    e: ErrorView,
) -> bool {
    let s = arranged(tables);
    if !all_fit(s) || all_payloads(stored_tables(s), s.len() as int) > u32::MAX {
        e == arena_error()
    } else {
        match charge_of(st, s) {
            Err(first) => e == first,
            Ok(n) => if any_early(st, s, snapshot) {
                exists|i: int, j: int| #[trigger] first_early(st, s, i, j, snapshot, e)
            } else {
                record::capped(n) > pool && e == over_limit(record::capped(n), pool)
            },
        }
    }
}

/// Some change can only fail.
pub open spec fn any_early(st: &State, s: Seq<StagedTable>, snapshot: u64) -> bool {
    exists|i: int, j: int, e: ErrorView| #[trigger] early_staged(st, s, i, j, snapshot, e)
}

/// The first change that can only fail, and why.
pub open spec fn first_early(st: &State, s: Seq<StagedTable>, i: int, j: int, snapshot: u64, e: ErrorView) -> bool {
    &&& early_staged(st, s, i, j, snapshot, e)
    &&& forall|p: int, q: int, x: ErrorView| p < i || (p == i && q < j) ==> !#[trigger] early_staged(st, s, p, q, snapshot, x)
}

pub open spec fn early_staged(st: &State, s: Seq<StagedTable>, i: int, j: int, snapshot: u64, e: ErrorView) -> bool {
    &&& 0 <= i < s.len()
    &&& 0 <= j < s[i].operations@.len()
    &&& early_staged_error(st, s[i], j, snapshot) == Some(e)
}

pub open spec fn early_staged_error(st: &State, t: StagedTable, j: int, snapshot: u64) -> Option<ErrorView> {
    let c = t.operations@[j];
    if t.schema@.indexes.len() == 0 && t.schema@.text_indexes.len() == 0 {
        None
    } else {
        match st.latest(t.name@, encode_utf8(c.id@)) {
            Err(m) => Some(ErrorView::Corrupt(m)),
            Ok(entry) => if c.replay is None && commit::moved_on(entry, snapshot) {
                Some(changed_message(t.name@, c.id@))
            } else {
                match commit::prior_of(st, t.schema@, entry) {
                    Err(e) => Some(e),
                    Ok(_) => None,
                }
            },
        }
    }
}

proof fn lemma_early_same(st: &State, done: Seq<PreparedTable>, from: Seq<StagedTable>, i: int, j: int, snapshot: u64, e: ErrorView)
    requires
        prepared_from(done, from),
    ensures
        early_at(st, done, i, j, snapshot, e) == early_staged(st, from, i, j, snapshot, e),
{
    if 0 <= i < done.len() {
        assert(carries(done[i].changes@, from[i].schema@, from[i].operations@));
        if 0 <= j < done[i].changes@.len() {
            assert(done[i].changes@[j]@ == stored_change(from[i].schema@, from[i].operations@[j]));
        }
    }
}

/// What is said of a transaction that was prepared.
pub open spec fn is_prepared(st: &State, snapshot: u64, tables: Seq<StagedTable>, capacity: int, p: PreparedCommit) -> bool {
    let s = arranged(tables);
    &&& p.wf()
    &&& commit_laws::changes_sorted(model::views(p.staged@))
    &&& p.snapshot == snapshot
    &&& prepared_from(p.staged@, s)
    &&& model::views(p.staged@) == stored_tables(s)
    &&& all_fit(s)
    &&& all_payloads(stored_tables(s), s.len() as int) <= u32::MAX
    &&& charge_of(st, s) matches Ok(n) && p.incoming_index_bytes == record::capped(n)
    &&& p.incoming_index_bytes <= capacity
    &&& forall|i: int, j: int, e: ErrorView| !#[trigger] early_staged(st, s, i, j, snapshot, e)
}

/// The tables of a transaction are as good in the order of their names.
pub proof fn lemma_arranged_wf(tables: Seq<StagedTable>)
    requires
        all_wf(tables),
    ensures
        each_wf(arranged(tables)),
{
    let s = arranged(tables);
    lemma_arranged(tables);
    assert forall|i: int| 0 <= i < s.len() implies (#[trigger] s[i]).wf() by {
        assert(s.contains(s[i]));
        assert(tables.contains(s[i]));
        let k = tables.index_of(s[i]);
        assert(tables[k].wf());
    }
}

/// Prepare a transaction for its commit: put its records in their stored form
/// and make sure that the index deltas have room for it at all.
pub fn prepare_commit(st: &State, snapshot: u64, tables: Vec<StagedTable>, index_capacity: usize) -> (r: Result<PreparedCommit, Error>)
    requires
        st.inv(),
        all_wf(tables@),
    ensures
        match r {
            Ok(p) => is_prepared(st, snapshot, tables@, index_capacity as int, p),
            Err(e) => prepare_error(st, tables@, snapshot, index_capacity as int, e@),
        },
{
    let ghost start = tables@;
    let list = arrange(tables);
    let ghost s = list@;
    proof {
        lemma_arranged(start);
        lemma_arranged_wf(start);
        lemma_arranged_apart(start);
        lemma_prepared_distinct(s);
    }
    let tokens = collect_tokens(&list);
    let done = match store_tables(list) {
        Ok(done) => done,
        Err(e) => {
            return Err(e);
        },
    };
    proof {
        lemma_prepared_views(done@, s);
        let lists = Seq::new(s.len(), |i: int| tokens_of(s[i]));
        lemma_charge_with(st, stored_tables(s), tokens@, lists, s.len() as int);
        assert forall|i: int| 0 <= i < tokens@.len() implies (#[trigger] tokens@[i])@.len() == done@[i].changes@.len() by {
            assert(carries(done@[i].changes@, s[i].schema@, s[i].operations@));
        }
    }
    let bytes: usize = match estimate_staged_index_bytes(st, &done, &tokens) {
        Ok(bytes) => bytes,
        Err(e) => {
            return Err(e);
        },
    };
    match early_conflict(st, &done, snapshot) {
        Ok(()) => {},
        Err(e) => {
            proof {
                let (i, j) = choose|i: int, j: int|
                    #[trigger] early_at(st, done@, i, j, snapshot, e@) && forall|p: int, q: int, x: ErrorView|
                        p < i || (p == i && q < j) ==> !#[trigger] early_at(st, done@, p, q, snapshot, x);
                lemma_early_same(st, done@, s, i, j, snapshot, e@);
                assert forall|p: int, q: int, x: ErrorView| p < i || (p == i && q < j) implies !#[trigger] early_staged(
                    st,
                    s,
                    p,
                    q,
                    snapshot,
                    x,
                ) by {
                    lemma_early_same(st, done@, s, p, q, snapshot, x);
                }
                assert(early_staged(st, s, i, j, snapshot, e@));
                assert(first_early(st, s, i, j, snapshot, e@));
            }
            return Err(e);
        },
    }
    proof {
        assert forall|i: int, j: int, e: ErrorView| !#[trigger] early_staged(st, s, i, j, snapshot, e) by {
            lemma_early_same(st, done@, s, i, j, snapshot, e);
        }
    }
    if bytes > index_capacity {
        let e = Error::MemoryLimit(
            "transaction needs an estimated ".to_owned().concat(decimal_text(bytes as u64).as_str()).concat(
                " index-delta bytes, but the pool is ",
            ).concat(decimal_text(index_capacity as u64).as_str()).concat(
                " bytes; split the transaction or raise memory.index_delta_pool_bytes",
            ),
        );
        assert(e@ == over_limit(bytes as int, index_capacity as int));
        return Err(e);
    }
    Ok(PreparedCommit { snapshot, staged: done, incoming_index_bytes: bytes })
}

} // verus!
