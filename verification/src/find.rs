//! Looking records up by the value of a column.

use crate::bytes::{self, Place};
use crate::cow;
use crate::error::{table_not_found, Error, ErrorView};
use crate::levels::SegmentMeta;
use crate::model;
use crate::order::OrderedKey;
use crate::primary::PrimaryDelta;
use crate::record::{self, decode_record, encoded_record_column_eq, Record, RecordView};
use crate::reads;
use crate::schema::{self, TableSchema, TableView};
use crate::secondary;
use crate::segment::{self, find_segment, read_entry, read_record_kind, EntryView, SegEntry};
use crate::state::{self, add_id, State};
use crate::text::{self, decimal_text};
use crate::value::{self, index_key, same_value, Value, ValueView};
use crate::version::{self, primary_table_prefix, KindView, VKind, VersionEntry, VersionView};
use crate::visit::{self, Group, GroupView, Walk};
use vstd::prelude::*;
use vstd::string::*;
use vstd::utf8::*;

verus! {

/// A record that was looked for.
pub struct Hit {
    pub id: String,
    pub record: Record,
}

#[verifier::ext_equal]
pub struct HitView {
    pub id: Seq<char>,
    pub record: RecordView,
}

impl View for Hit {
    type V = HitView;

    open spec fn view(&self) -> HitView {
        HitView { id: self.id@, record: self.record@ }
    }
}

pub open spec fn hits_wf(s: Seq<Hit>) -> bool {
    forall|i: int| 0 <= i < s.len() ==> (#[trigger] s[i]).record.wf()
}

/// What a lookup comes to, by views.
pub open spec fn found(r: Result<Vec<Hit>, Error>) -> Result<Seq<HitView>, ErrorView> {
    match r {
        Ok(hits) => Ok(model::views(hits@)),
        Err(e) => Err(e@),
    }
}

// ---- Through an index -------------------------------------------------------

/// The record of one id that an index lists; a deleted one is passed over.
pub open spec fn listed_hit(st: &State, t: TableView, id: Seq<char>) -> Result<Option<HitView>, ErrorView> {
    match st.latest(t.name, encode_utf8(id)) {
        Err(m) => Err(ErrorView::Corrupt(m)),
        Ok(None) => Ok(None),
        Ok(Some(v)) => if v.kind.is_tombstone() {
            Ok(None)
        } else {
            match st.record_at(t, v, id) {
                Err(e) => Err(e),
                Ok(rec) => Ok(Some(HitView { id, record: rec })),
            }
        },
    }
}

/// The records of the first ids.
pub open spec fn listed_hits(st: &State, t: TableView, ids: Seq<Seq<char>>, n: int) -> Result<Seq<HitView>, ErrorView>
    decreases n,
{
    if n <= 0 {
        Ok(Seq::empty())
    } else {
        match listed_hits(st, t, ids, n - 1) {
            Err(e) => Err(e),
            Ok(done) => match listed_hit(st, t, ids[n - 1]) {
                Err(e) => Err(e),
                Ok(None) => Ok(done),
                Ok(Some(h)) => Ok(done.push(h)),
            },
        }
    }
}

proof fn lemma_listed_prefix(st: &State, t: TableView, ids: Seq<Seq<char>>, n: int)
    requires
        0 <= n <= ids.len(),
    ensures
        listed_hits(st, t, ids, n) matches Err(e) ==> listed_hits(st, t, ids, ids.len() as int) == Err::<Seq<HitView>, ErrorView>(e),
    decreases ids.len() - n,
{
    if n < ids.len() {
        lemma_listed_prefix(st, t, ids, n + 1);
    }
}

pub open spec fn ids_in_bytes(ids: Seq<Seq<char>>) -> Seq<Seq<u8>> {
    Seq::new(ids.len(), |i: int| encode_utf8(ids[i]))
}

/// What an index answers: the ids under the key of the value, after `after` and
/// at most `limit`, each with its record; or what keeps it from being read at
/// the first pair on the way that cannot be.
pub open spec fn index_answer(
    st: &State,
    t: TableView,
    slot: int,
    v: ValueView,
    after: Option<Seq<char>>,
    limit: Option<usize>,
    r: Result<Seq<HitView>, ErrorView>,
) -> bool {
    let index = st.secondary@[slot].index;
    let from = after_bytes(after);
    ||| exists|ids: Seq<Seq<char>>|
        #[trigger] index.is_id_list(value::encoded(v), from, limit, ids_in_bytes(ids)) && r == listed_hits(
            st,
            t,
            ids,
            ids.len() as int,
        )
    ||| r is Err && index.list_error(value::encoded(v), from, limit, r->Err_0)
}

pub open spec fn after_bytes(after: Option<Seq<char>>) -> Option<Seq<u8>> {
    match after {
        Some(a) => Some(encode_utf8(a)),
        None => None,
    }
}

pub fn read_listed(st: &State, schema: &TableSchema, ids: Vec<String>) -> (r: Result<Vec<Hit>, Error>)
    requires
        st.wf(),
    ensures
        found(r) == listed_hits(st, schema@, model::views(ids@), ids@.len() as int),
        r matches Ok(hits) ==> hits_wf(hits@),
{
    let ghost names = model::views(ids@);
    let mut out: Vec<Hit> = Vec::new();
    let mut i: usize = 0;
    assert(model::views(out@) =~= Seq::<HitView>::empty());
    while i < ids.len()
        invariant
            st.wf(),
            i <= ids@.len(),
            names == model::views(ids@),
            listed_hits(st, schema@, names, i as int) == Ok::<Seq<HitView>, ErrorView>(model::views(out@)),
            hits_wf(out@),
        decreases ids@.len() - i,
    {
        let id = &ids[i];
        assert(names[i as int] == id@);
        let ghost before = model::views(out@);
        proof {
            lemma_listed_prefix(st, schema@, names, i + 1);
        }
        match st.latest_owned(schema.name.as_str(), id.as_str()) {
            Err(e) => {
                return Err(e);
            },
            Ok(None) => {},
            Ok(Some(v)) => {
                if !v.is_tombstone() {
                    match st.read_version(schema, &v, id.as_str()) {
                        Err(e) => {
                            return Err(e);
                        },
                        Ok(rec) => {
                            let hit = Hit { id: id.clone(), record: rec };
                            out.push(hit);
                            assert(model::views(out@) =~= before.push(hit@));
                        },
                    }
                }
            },
        }
        i = i + 1;
    }
    Ok(out)
}

// ---- Through the primary index ----------------------------------------------

/// The last of the versions that is past the epoch.
pub open spec fn last_past(versions: Seq<VersionView>, epoch: u64) -> Option<VersionView>
    decreases versions.len(),
{
    if versions.len() == 0 {
        None
    } else if versions.last().version > epoch {
        Some(versions.last())
    } else {
        last_past(versions.drop_last(), epoch)
    }
}

fn find_last_past(versions: &Vec<VersionEntry>, epoch: u64) -> (r: Option<&VersionEntry>)
    ensures
        match last_past(model::views(versions@), epoch) {
            Some(v) => r is Some && r->0@ == v,
            None => r is None,
        },
{
    let ghost all = model::views(versions@);
    let mut i: usize = versions.len();
    assert(all.subrange(0, all.len() as int) =~= all);
    while i > 0
        invariant
            i <= versions@.len(),
            all == model::views(versions@),
            last_past(all, epoch) == last_past(all.subrange(0, i as int), epoch),
        decreases i,
    {
        proof {
            let t = all.subrange(0, i as int);
            assert(t.drop_last() =~= all.subrange(0, i - 1));
            assert(t.last() == versions@[i - 1]@);
        }
        if versions[i - 1].version > epoch {
            return Some(&versions[i - 1]);
        }
        i = i - 1;
    }
    None
}

/// Whether a record has the value in the column.
pub open spec fn record_has(rec: RecordView, column: Seq<char>, v: ValueView) -> bool {
    rec.contains_key(encode_utf8(column)) && value::value_eq(rec[encode_utf8(column)], v)
}

/// One record of a walk, where it has the value.
pub open spec fn walked_hit(st: &State, t: TableView, g: GroupView, column: Seq<char>, v: ValueView) -> Result<
    Option<HitView>,
    ErrorView,
> {
    match last_past(g.versions, t.epoch) {
        None => Ok(None),
        Some(last) => if last.kind.is_tombstone() {
            Ok(None)
        } else {
            match segment::record_of(st.images(), st.blobs@, last.kind) {
                Err(e) => Err(e),
                Ok(rec) => if record_has(rec, column, v) {
                    Ok(Some(HitView { id: decode_utf8(g.id), record: state::with_id(t, rec, decode_utf8(g.id)) }))
                } else {
                    Ok(None)
                },
            }
        },
    }
}

/// The hits among the first records of a walk, at most `limit`.
pub open spec fn walked_hits(
    st: &State,
    t: TableView,
    groups: Seq<GroupView>,
    column: Seq<char>,
    v: ValueView,
    limit: Option<usize>,
    n: int,
) -> Result<Seq<HitView>, ErrorView>
    decreases n,
{
    if n <= 0 {
        Ok(Seq::empty())
    } else {
        match walked_hits(st, t, groups, column, v, limit, n - 1) {
            Err(e) => Err(e),
            Ok(done) => if is_full(done.len(), limit) {
                Ok(done)
            } else {
                match walked_hit(st, t, groups[n - 1], column, v) {
                    Err(e) => Err(e),
                    Ok(None) => Ok(done),
                    Ok(Some(h)) => Ok(done.push(h)),
                }
            },
        }
    }
}

pub open spec fn is_full(count: nat, limit: Option<usize>) -> bool {
    limit matches Some(l) && count >= l
}

proof fn lemma_walked_prefix(
    st: &State,
    t: TableView,
    groups: Seq<GroupView>,
    column: Seq<char>,
    v: ValueView,
    limit: Option<usize>,
    n: int,
)
    requires
        0 <= n <= groups.len(),
    ensures
        ({
            let whole = walked_hits(st, t, groups, column, v, limit, groups.len() as int);
            match walked_hits(st, t, groups, column, v, limit, n) {
                Err(e) => whole == Err::<Seq<HitView>, ErrorView>(e),
                Ok(done) => is_full(done.len(), limit) ==> whole == Ok::<Seq<HitView>, ErrorView>(done),
            }
        }),
    decreases groups.len() - n,
{
    if n < groups.len() {
        lemma_walked_prefix(st, t, groups, column, v, limit, n + 1);
    }
}

/// How far a walk over a table can come.
pub open spec fn is_walk(st: &State, t: TableView, after: Option<Seq<char>>, groups: Seq<GroupView>, fault: Option<ErrorView>) -> bool {
    let table = encode_utf8(t.name);
    match fault {
        None => st.index.is_listing(table, after_bytes(after), None, groups),
        Some(e) => exists|key: Seq<u8>, m: Seq<char>|
            #[trigger] st.index.stops_at(table, after_bytes(after), None, groups, key, m) && e == ErrorView::Corrupt(m),
    }
}

/// What a walk over the primary index answers.
pub open spec fn walk_answer(
    st: &State,
    t: TableView,
    column: Seq<char>,
    v: ValueView,
    after: Option<Seq<char>>,
    limit: Option<usize>,
    r: Result<Seq<HitView>, ErrorView>,
) -> bool {
    exists|groups: Seq<GroupView>, fault: Option<ErrorView>|
        #[trigger] is_walk(st, t, after, groups, fault) && r == (match walked_hits(
            st,
            t,
            groups,
            column,
            v,
            limit,
            groups.len() as int,
        ) {
            Err(e) => Err(e),
            Ok(hits) => match fault {
                Some(e) => if is_full(hits.len(), limit) {
                    Ok(hits)
                } else {
                    Err(e)
                },
                None => Ok(hits),
            },
        })
}

pub open spec fn fault_view(fault: Option<Error>) -> Option<ErrorView> {
    match fault {
        Some(e) => Some(e@),
        None => None,
    }
}

fn group_hit(st: &State, schema: &TableSchema, g: &Group, column: &str, v: &Value) -> (r: Result<Option<Hit>, Error>)
    requires
        st.wf(),
    ensures
        match walked_hit(st, schema@, g@, column@, v@) {
            Err(e) => r is Err && r->Err_0@ == e,
            Ok(None) => r matches Ok(None),
            Ok(Some(h)) => r matches Ok(Some(hit)) && hit@ == h && hit.record.wf(),
        },
{
    proof {
        encode_utf8_decode_utf8(g.id@);
    }
    match find_last_past(&g.versions, schema.epoch) {
        None => Ok(None),
        Some(last) => {
            if last.is_tombstone() {
                return Ok(None);
            }
            match read_record_kind(&st.blobs, &st.segments, &last.kind) {
                Err(e) => Err(e),
                Ok(rec) => {
                    let same = match rec.get(column.as_bytes()) {
                        Some(x) => same_value(x, v),
                        None => false,
                    };
                    if same {
                        Ok(Some(Hit { id: g.id.clone(), record: add_id(schema, rec, g.id.as_str()) }))
                    } else {
                        Ok(None)
                    }
                },
            }
        },
    }
}

/// Look through the records of a table.
fn walk_for_eq(st: &State, schema: &TableSchema, column: &str, v: &Value, after: Option<&str>, limit: Option<usize>) -> (r: Result<
    Vec<Hit>,
    Error,
>)
    requires
        st.wf(),
        encode_utf8(schema@.name).len() <= u32::MAX,
        limit matches Some(l) ==> l > 0,
    ensures
        walk_answer(st, schema@, column@, v@, reads::str_view(after), limit, found(r)),
        r matches Ok(hits) ==> hits_wf(hits@),
{
    let Walk { groups, fault } = st.index.walk_table(schema.name.as_str(), after, None);
    let ghost gv = model::views(groups@);
    let ghost fv = fault_view(fault);
    let ghost t = schema@;
    assert(is_walk(st, t, reads::str_view(after), gv, fv));
    let mut out: Vec<Hit> = Vec::new();
    let mut i: usize = 0;
    assert(model::views(out@) =~= Seq::<HitView>::empty());
    while i < groups.len()
        invariant
            st.wf(),
            t == schema@,
            i <= groups@.len(),
            gv == model::views(groups@),
            is_walk(st, t, reads::str_view(after), gv, fv),
            walked_hits(st, t, gv, column@, v@, limit, i as int) == Ok::<Seq<HitView>, ErrorView>(model::views(out@)),
            !is_full(out@.len(), limit),
            hits_wf(out@),
        decreases groups@.len() - i,
    {
        let ghost before = model::views(out@);
        assert(gv[i as int] == groups@[i as int]@);
        proof {
            lemma_walked_prefix(st, t, gv, column@, v@, limit, i + 1);
        }
        match group_hit(st, schema, &groups[i], column, v) {
            Err(e) => {
                let done: Result<Vec<Hit>, Error> = Err(e);
                assert(found(done) == walked_hits(st, t, gv, column@, v@, limit, gv.len() as int));
                return done;
            },
            Ok(None) => {},
            Ok(Some(hit)) => {
                out.push(hit);
                assert(model::views(out@) =~= before.push(hit@));
                if !secondary::has_room(out.len(), limit) {
                    let done: Result<Vec<Hit>, Error> = Ok(out);
                    assert(found(done) == walked_hits(st, t, gv, column@, v@, limit, gv.len() as int));
                    return done;
                }
            },
        }
        i = i + 1;
    }
    match fault {
        Some(e) => {
            let done: Result<Vec<Hit>, Error> = Err(e);
            assert(found(done) == Err::<Seq<HitView>, ErrorView>(fv->0));
            done
        },
        None => Ok(out),
    }
}

// ---- Through the segments ---------------------------------------------------

pub open spec fn bad_id() -> ErrorView {
    ErrorView::Corrupt("invalid utf8 in segment record id"@)
}

/// Whether the newest version of a record is an entry of a segment.
pub open spec fn newest_in(st: &State, table: Seq<char>, id: Seq<char>, version: u64, segment: u32) -> bool {
    st.latest(table, encode_utf8(id)) matches Ok(Some(v)) && v.version == version && (v.kind matches KindView::SegPut {
        segment: s,
        ..
    } && s == segment)
}

/// Whether an entry of a segment is a record's newest version. A segment in
/// which nothing was superseded needs no look at the primary index.
pub open spec fn entry_counts(st: &State, t: TableView, segment: u32, e: EntryView) -> Result<bool, ErrorView> {
    if e.tombstone || e.table != encode_utf8(t.name) || e.version <= t.epoch {
        Ok(false)
    } else if !st.superseded@.contains(segment) {
        Ok(true)
    } else if !valid_utf8(e.id) {
        Err(bad_id())
    } else {
        Ok(newest_in(st, t.name, decode_utf8(e.id), e.version, segment))
    }
}

/// A stored payload as a hit, where it has the value.
pub open spec fn payload_hit(st: &State, t: TableView, id: Seq<u8>, payload: Seq<u8>, column: Seq<char>, v: ValueView) -> Result<
    Option<HitView>,
    ErrorView,
> {
    match record::column_matches(payload, encode_utf8(column), reads::ordinal_of(t, column), v, st.blobs@) {
        Err(e) => Err(e),
        Ok(false) => Ok(None),
        Ok(true) => if !valid_utf8(id) {
            Err(bad_id())
        } else {
            match record::decoded(payload, st.blobs@) {
                Err(e) => Err(e),
                Ok(rec) => Ok(Some(HitView { id: decode_utf8(id), record: state::with_id(t, rec, decode_utf8(id)) })),
            }
        },
    }
}

pub open spec fn entry_hit(st: &State, t: TableView, segment: u32, e: EntryView, column: Seq<char>, v: ValueView) -> Result<
    Option<HitView>,
    ErrorView,
> {
    match entry_counts(st, t, segment, e) {
        Err(e) => Err(e),
        Ok(false) => Ok(None),
        Ok(true) => payload_hit(st, t, e.id, e.payload, column, v),
    }
}

/// The hits with one more, where there is one.
pub open spec fn with_hit(done: Seq<HitView>, h: Option<HitView>) -> Seq<HitView> {
    match h {
        Some(h) => done.push(h),
        None => done,
    }
}

/// The hits of a segment from a position on, behind those that are there.
pub open spec fn segment_hits(
    st: &State,
    t: TableView,
    segment: u32,
    data: Seq<u8>,
    pos: int,
    column: Seq<char>,
    v: ValueView,
    done: Seq<HitView>,
) -> Result<Seq<HitView>, ErrorView>
    decreases data.len() - pos,
    when 0 <= pos
{
    if pos >= data.len() {
        Ok(done)
    } else {
        match segment::entry_at(data, pos, segment) {
            Err(m) => Err(ErrorView::Corrupt(m)),
            Ok((e, end)) => match entry_hit(st, t, segment, e, column, v) {
                Err(e) => Err(e),
                Ok(h) => if end + 4 > data.len() {
                    Err(ErrorView::Corrupt(value::end_message()))
                } else if end + 4 <= pos {
                    Ok(done)
                } else {
                    segment_hits(st, t, segment, data, end + 4, column, v, with_hit(done, h))
                },
            },
        }
    }
}

/// The hits of the first segments.
pub open spec fn stored_hits(st: &State, t: TableView, column: Seq<char>, v: ValueView, n: int) -> Result<Seq<HitView>, ErrorView>
    decreases n,
{
    if n <= 0 {
        Ok(Seq::empty())
    } else {
        match stored_hits(st, t, column, v, n - 1) {
            Err(e) => Err(e),
            Ok(done) => one_segment(st, t, st.metas@[n - 1], column, v, done),
        }
    }
}

pub open spec fn one_segment(st: &State, t: TableView, meta: SegmentMeta, column: Seq<char>, v: ValueView, done: Seq<HitView>) -> Result<
    Seq<HitView>,
    ErrorView,
> {
    match segment::image_of(st.images(), meta.id) {
        None => Err(segment::missing_segment(meta.id)),
        Some(image) => if meta.len > image.len() {
            Err(ErrorView::Corrupt("segment "@ + text::decimal(meta.id as nat) + " is truncated"@))
        } else {
            segment_hits(st, t, meta.id, image.subrange(0, meta.len as int), 0, column, v, done)
        },
    }
}

/// One record of a delta, where it is a resident one with the value. Records
/// that `over` has are passed over.
pub open spec fn resident_hit(
    st: &State,
    t: TableView,
    over: Option<Map<Seq<u8>, Seq<VersionView>>>,
    key: Seq<u8>,
    versions: Seq<VersionView>,
    column: Seq<char>,
    v: ValueView,
) -> Result<Option<HitView>, ErrorView> {
    let prefix = version::table_prefix(encode_utf8(t.name));
    if !prefix.is_prefix_of(key) || (over matches Some(m) && m.contains_key(key)) {
        Ok(None)
    } else {
        match last_past(versions, t.epoch) {
            Some(last) => match last.kind {
                KindView::MemPut(payload) => payload_hit(
                    st,
                    t,
                    key.subrange(prefix.len() as int, key.len() as int),
                    payload,
                    column,
                    v,
                ),
                _ => Ok(None),
            },
            None => Ok(None),
        }
    }
}

/// The hits of the first records of a delta, behind those that are there.
pub open spec fn resident_hits(
    st: &State,
    t: TableView,
    over: Option<Map<Seq<u8>, Seq<VersionView>>>,
    s: Seq<(Seq<u8>, Seq<VersionView>)>,
    column: Seq<char>,
    v: ValueView,
    done: Seq<HitView>,
    n: int,
) -> Result<Seq<HitView>, ErrorView>
    decreases n,
{
    if n <= 0 {
        Ok(done)
    } else {
        match resident_hits(st, t, over, s, column, v, done, n - 1) {
            Err(e) => Err(e),
            Ok(hits) => match resident_hit(st, t, over, s[n - 1].0, s[n - 1].1, column, v) {
                Err(e) => Err(e),
                Ok(h) => Ok(with_hit(hits, h)),
            },
        }
    }
}

/// What walking the segments and the resident records answers, before it is put
/// in order.
pub open spec fn streamed(st: &State, t: TableView, column: Seq<char>, v: ValueView) -> Result<Seq<HitView>, ErrorView> {
    match stored_hits(st, t, column, v, st.metas@.len() as int) {
        Err(e) => Err(e),
        Ok(stored) => {
            let active = st.index.delta.pairs();
            match resident_hits(st, t, None, active, column, v, stored, active.len() as int) {
                Err(e) => Err(e),
                Ok(hits) => match st.index.frozen {
                    None => Ok(hits),
                    Some(f) => resident_hits(
                        st,
                        t,
                        Some(st.index.delta@),
                        f.delta.pairs(),
                        column,
                        v,
                        hits,
                        f.delta.pairs().len() as int,
                    ),
                },
            }
        },
    }
}

fn is_superseded(st: &State, segment: u32) -> (r: bool)
    ensures
        r == st.superseded@.contains(segment),
{
    let mut i: usize = 0;
    while i < st.superseded.len()
        invariant
            i <= st.superseded@.len(),
            forall|j: int| 0 <= j < i ==> st.superseded@[j] != segment,
        decreases st.superseded@.len() - i,
    {
        if st.superseded[i] == segment {
            assert(st.superseded@[i as int] == segment);
            return true;
        }
        i = i + 1;
    }
    false
}

/// Whether the newest version of a record is an entry of a segment.
pub fn latest_is_segment_put(st: &State, table: &str, id: &str, version: u64, segment: u32) -> (r: bool)
    requires
        st.wf(),
    ensures
        r == newest_in(st, table@, id@, version, segment),
{
    match st.latest_owned(table, id) {
        Ok(Some(v)) => {
            if v.version != version {
                return false;
            }
            match &v.kind {
                VKind::SegPut { segment: s, .. } => *s == segment,
                _ => false,
            }
        },
        _ => false,
    }
}

fn payload_as_hit(st: &State, schema: &TableSchema, id: &[u8], payload: &[u8], column: &str, ordinal: Option<usize>, v: &Value) -> (r: Result<
    Option<Hit>,
    Error,
>)
    requires
        st.wf(),
        ordinal == reads::ordinal_of(schema@, column@),
    ensures
        match payload_hit(st, schema@, id@, payload@, column@, v@) {
            Err(e) => r is Err && r->Err_0@ == e,
            Ok(None) => r matches Ok(None),
            Ok(Some(h)) => r matches Ok(Some(hit)) && hit@ == h && hit.record.wf(),
        },
{
    match encoded_record_column_eq(payload, column, ordinal, v, &st.blobs) {
        Err(e) => {
            return Err(e);
        },
        Ok(false) => {
            return Ok(None);
        },
        Ok(true) => {},
    }
    let id = match bytes::text_from_utf8(id) {
        None => {
            return Err(Error::Corrupt("invalid utf8 in segment record id".to_owned()));
        },
        Some(id) => id,
    };
    match decode_record(payload, &st.blobs) {
        Err(e) => Err(e),
        Ok(rec) => {
            let record = add_id(schema, rec, id.as_str());
            Ok(Some(Hit { id, record }))
        },
    }
}

fn entry_as_hit(
    st: &State,
    schema: &TableSchema,
    segment: u32,
    data: &[u8],
    e: &SegEntry,
    superseded: bool,
    column: &str,
    ordinal: Option<usize>,
    v: &Value,
) -> (r: Result<Option<Hit>, Error>)
    requires
        st.wf(),
        ordinal == reads::ordinal_of(schema@, column@),
        superseded == st.superseded@.contains(segment),
        segment::within(data@, *e),
    ensures
        match entry_hit(st, schema@, segment, segment::entry_in(data@, *e), column@, v@) {
            Err(e) => r is Err && r->Err_0@ == e,
            Ok(None) => r matches Ok(None),
            Ok(Some(h)) => r matches Ok(Some(hit)) && hit@ == h && hit.record.wf(),
        },
{
    if e.tombstone || !bytes::same_bytes(e.table.as_slice(), schema.name.as_str().as_bytes()) || e.version <= schema.epoch {
        return Ok(None);
    }
    if superseded {
        let id = match bytes::text_from_utf8(e.id.as_slice()) {
            None => {
                return Err(Error::Corrupt("invalid utf8 in segment record id".to_owned()));
            },
            Some(id) => id,
        };
        if !latest_is_segment_put(st, schema.name.as_str(), id.as_str(), e.version, segment) {
            return Ok(None);
        }
    }
    let total: usize = data.len();
    assert(e.payload_offset + e.payload_len <= total);
    let payload = bytes::copy_range(data, e.payload_offset, e.payload_offset + e.payload_len);
    payload_as_hit(st, schema, e.id.as_slice(), payload.as_slice(), column, ordinal, v)
}

/// Look through a segment for records with a value in a column, and put them
/// behind the hits that are there.
pub fn scan_segment_for_eq(
    st: &State,
    schema: &TableSchema,
    meta: &SegmentMeta,
    column: &str,
    ordinal: Option<usize>,
    v: &Value,
    out: &mut Vec<Hit>,
) -> (r: Result<(), Error>)
    requires
        st.wf(),
        ordinal == reads::ordinal_of(schema@, column@),
        hits_wf(old(out)@),
    ensures
        match one_segment(st, schema@, *meta, column@, v@, model::views(old(out)@)) {
            Ok(hits) => r is Ok && model::views(final(out)@) == hits && hits_wf(final(out)@),
            Err(e) => r is Err && r->Err_0@ == e,
        },
{
    let ghost start = model::views(out@);
    let ghost t = schema@;
    let found = match find_segment(&st.segments, meta.id) {
        None => {
            let n = decimal_text(meta.id as u64);
            return Err(Error::Corrupt("missing segment ".to_owned().concat(n.as_str())));
        },
        Some(s) => s,
    };
    if meta.len > found.image.len() as u64 {
        let n = decimal_text(meta.id as u64);
        return Err(Error::Corrupt("segment ".to_owned().concat(n.as_str()).concat(" is truncated")));
    }
    let data = bytes::copy_range(found.image.as_slice(), 0, meta.len as usize);
    let superseded = is_superseded(st, meta.id);
    let ghost whole = segment_hits(st, t, meta.id, data@, 0, column@, v@, start);
    let mut pos: usize = 0;
    while pos < data.len()
        invariant
            st.wf(),
            t == schema@,
            ordinal == reads::ordinal_of(t, column@),
            superseded == st.superseded@.contains(meta.id),
            pos <= data@.len(),
            hits_wf(out@),
            whole == one_segment(st, t, *meta, column@, v@, model::views(old(out)@)),
            whole == segment_hits(st, t, meta.id, data@, pos as int, column@, v@, model::views(out@)),
        decreases data@.len() - pos,
    {
        let (e, end) = match read_entry(data.as_slice(), pos, meta.id) {
            Err(e) => {
                return Err(e);
            },
            Ok(p) => p,
        };
        let ghost before = model::views(out@);
        let hit = match entry_as_hit(st, schema, meta.id, data.as_slice(), &e, superseded, column, ordinal, v) {
            Err(e) => {
                return Err(e);
            },
            Ok(hit) => hit,
        };
        if data.len() - end < 4 {
            return Err(Error::Corrupt("unexpected end of record".to_owned()));
        }
        match hit {
            Some(hit) => {
                out.push(hit);
                assert(model::views(out@) =~= before.push(hit@));
            },
            None => {},
        }
        pos = end + 4;
    }
    Ok(())
}

fn resident_for_eq(
    st: &State,
    schema: &TableSchema,
    over: Option<&PrimaryDelta>,
    delta: &PrimaryDelta,
    column: &str,
    ordinal: Option<usize>,
    v: &Value,
    out: &mut Vec<Hit>,
) -> (r: Result<(), Error>)
    requires
        st.wf(),
        encode_utf8(schema@.name).len() <= u32::MAX,
        ordinal == reads::ordinal_of(schema@, column@),
        delta.wf(),
        over matches Some(m) ==> m.wf(),
        hits_wf(old(out)@),
    ensures
        match resident_hits(
            st,
            schema@,
            over_view(over),
            delta.pairs(),
            column@,
            v@,
            model::views(old(out)@),
            delta.pairs().len() as int,
        ) {
            Ok(hits) => r is Ok && model::views(final(out)@) == hits && hits_wf(final(out)@),
            Err(e) => r is Err && r->Err_0@ == e,
        },
{
    let ghost start = model::views(out@);
    let ghost t = schema@;
    let ghost s = delta.pairs();
    let ghost ov = over_view(over);
    let prefix = primary_table_prefix(schema.name.as_str());
    let entries = delta.iter();
    let mut i: usize = 0;
    while i < entries.len()
        invariant
            st.wf(),
            t == schema@,
            s == delta.pairs(),
            ov == over_view(over),
            prefix@ == version::table_prefix(encode_utf8(t.name)),
            ordinal == reads::ordinal_of(t, column@),
            over matches Some(m) ==> m.wf(),
            i <= entries@.len() == s.len(),
            cow::entry_pairs(entries@) == s,
            start == model::views(old(out)@),
            hits_wf(out@),
            resident_hits(st, t, ov, s, column@, v@, start, i as int) == Ok::<Seq<HitView>, ErrorView>(model::views(out@)),
        decreases entries@.len() - i,
    {
        let (key, versions) = entries[i];
        let ghost before = model::views(out@);
        proof {
            assert(cow::entry_pairs(entries@)[i as int] == (key.rank(), versions@));
            lemma_resident_prefix(st, t, ov, s, column@, v@, start, i + 1);
        }
        let hidden = match over {
            Some(m) => m.contains_key(key.as_slice()),
            None => false,
        };
        if bytes::starts_with(key.as_slice(), prefix.as_slice()) && !hidden {
            match find_last_past(&versions.list, schema.epoch) {
                Some(last) => match &last.kind {
                    VKind::MemPut(payload) => {
                        let id = bytes::copy_range(key.as_slice(), prefix.len(), key.len());
                        match payload_as_hit(st, schema, id.as_slice(), payload.as_slice(), column, ordinal, v) {
                            Err(e) => {
                                return Err(e);
                            },
                            Ok(Some(hit)) => {
                                out.push(hit);
                                assert(model::views(out@) =~= before.push(hit@));
                            },
                            Ok(None) => {},
                        }
                    },
                    _ => {},
                },
                None => {},
            }
        }
        i = i + 1;
    }
    Ok(())
}

pub open spec fn over_view(over: Option<&PrimaryDelta>) -> Option<Map<Seq<u8>, Seq<VersionView>>> {
    match over {
        Some(m) => Some(m@),
        None => None,
    }
}

proof fn lemma_resident_prefix(
    st: &State,
    t: TableView,
    over: Option<Map<Seq<u8>, Seq<VersionView>>>,
    s: Seq<(Seq<u8>, Seq<VersionView>)>,
    column: Seq<char>,
    v: ValueView,
    done: Seq<HitView>,
    n: int,
)
    requires
        0 <= n <= s.len(),
    ensures
        resident_hits(st, t, over, s, column, v, done, n) matches Err(e) ==> resident_hits(
            st,
            t,
            over,
            s,
            column,
            v,
            done,
            s.len() as int,
        ) == Err::<Seq<HitView>, ErrorView>(e),
    decreases s.len() - n,
{
    if n < s.len() {
        lemma_resident_prefix(st, t, over, s, column, v, done, n + 1);
    }
}

proof fn lemma_stored_prefix(st: &State, t: TableView, column: Seq<char>, v: ValueView, n: int)
    requires
        0 <= n <= st.metas@.len(),
    ensures
        stored_hits(st, t, column, v, n) matches Err(e) ==> stored_hits(st, t, column, v, st.metas@.len() as int) == Err::<
            Seq<HitView>,
            ErrorView,
        >(e),
    decreases st.metas@.len() - n,
{
    if n < st.metas@.len() {
        lemma_stored_prefix(st, t, column, v, n + 1);
    }
}

/// Look through the segments and the resident records for a value of a column
/// that has no index. Only records with the value are decoded.
pub fn find_eq_streaming(st: &State, schema: &TableSchema, column: &str, v: &Value) -> (r: Result<Vec<Hit>, Error>)
    requires
        st.wf(),
        encode_utf8(schema@.name).len() <= u32::MAX,
    ensures
        found(r) == streamed(st, schema@, column@, v@),
        r matches Ok(hits) ==> hits_wf(hits@),
{
    let ghost t = schema@;
    let ordinal: Option<usize> = schema.column_position(column);
    let mut out: Vec<Hit> = Vec::new();
    let mut i: usize = 0;
    assert(model::views(out@) =~= Seq::<HitView>::empty());
    while i < st.metas.len()
        invariant
            st.wf(),
            t == schema@,
            ordinal == reads::ordinal_of(t, column@),
            i <= st.metas@.len(),
            hits_wf(out@),
            stored_hits(st, t, column@, v@, i as int) == Ok::<Seq<HitView>, ErrorView>(model::views(out@)),
        decreases st.metas@.len() - i,
    {
        proof {
            lemma_stored_prefix(st, t, column@, v@, i + 1);
        }
        match scan_segment_for_eq(st, schema, &st.metas[i], column, ordinal, v, &mut out) {
            Err(e) => {
                return Err(e);
            },
            Ok(_) => {},
        }
        i = i + 1;
    }
    match resident_for_eq(st, schema, None, &st.index.delta, column, ordinal, v, &mut out) {
        Err(e) => {
            return Err(e);
        },
        Ok(_) => {},
    }
    match &st.index.frozen {
        Some(f) => match resident_for_eq(st, schema, Some(&st.index.delta), &f.delta, column, ordinal, v, &mut out) {
            Err(e) => {
                return Err(e);
            },
            Ok(_) => {},
        },
        None => {},
    }
    Ok(out)
}

// ---- In order ---------------------------------------------------------------

pub open spec fn in_order(s: Seq<HitView>) -> bool {
    forall|i: int, j: int| 0 <= i < j < s.len() ==> !bytes::lex_lt(encode_utf8((#[trigger] s[j]).id), encode_utf8((#[trigger] s[i]).id))
}

/// The hits with one put behind those whose ids do not stand after its own.
pub open spec fn placed(s: Seq<HitView>, h: HitView) -> Seq<HitView>
    decreases s.len(),
{
    if s.len() == 0 {
        seq![h]
    } else if bytes::lex_lt(encode_utf8(h.id), encode_utf8(s.last().id)) {
        placed(s.drop_last(), h).push(s.last())
    } else {
        s.push(h)
    }
}

/// The hits in the order of their ids.
pub open spec fn ordered(s: Seq<HitView>) -> Seq<HitView>
    decreases s.len(),
{
    if s.len() == 0 {
        Seq::empty()
    } else {
        placed(ordered(s.drop_last()), s.last())
    }
}

proof fn lemma_placed(s: Seq<HitView>, h: HitView)
    ensures
        placed(s, h).to_multiset() == s.to_multiset().insert(h),
        placed(s, h).len() == s.len() + 1,
        in_order(s) ==> in_order(placed(s, h)),
        forall|x: HitView| #[trigger] placed(s, h).contains(x) ==> s.contains(x) || x == h,
    decreases s.len(),
{
    broadcast use vstd::seq_lib::group_to_multiset_ensures;

    let r = placed(s, h);
    if s.len() == 0 {
        assert(r =~= s.push(h));
        assert(r[0] == h);
    } else if bytes::lex_lt(encode_utf8(h.id), encode_utf8(s.last().id)) {
        let head = s.drop_last();
        let mid = placed(head, h);
        lemma_placed(head, h);
        assert(s =~= head.push(s.last()));
        assert(r.to_multiset() =~= s.to_multiset().insert(h));
        assert forall|x: HitView| #[trigger] r.contains(x) implies s.contains(x) || x == h by {
            let k = r.index_of(x);
            if k < mid.len() {
                assert(mid[k] == x);
                assert(mid.contains(x));
                if head.contains(x) {
                    assert(s[head.index_of(x)] == x);
                }
            } else {
                assert(s[s.len() - 1] == x);
            }
        }
        if in_order(s) {
            assert(in_order(head)) by {
                assert forall|i: int, j: int| 0 <= i < j < head.len() implies !bytes::lex_lt(
                    encode_utf8((#[trigger] head[j]).id),
                    encode_utf8((#[trigger] head[i]).id),
                ) by {
                    assert(head[i] == s[i] && head[j] == s[j]);
                }
            }
            assert forall|i: int, j: int| 0 <= i < j < r.len() implies !bytes::lex_lt(
                encode_utf8((#[trigger] r[j]).id),
                encode_utf8((#[trigger] r[i]).id),
            ) by {
                if j < mid.len() {
                    assert(r[i] == mid[i] && r[j] == mid[j]);
                } else {
                    assert(r[i] == mid[i]);
                    assert(mid.contains(mid[i]));
                    if mid[i] == h {
                        bytes::lemma_lex_trichotomy(encode_utf8(h.id), encode_utf8(s.last().id));
                    } else {
                        let k = head.index_of(mid[i]);
                        assert(s[k] == mid[i]);
                        assert(!bytes::lex_lt(encode_utf8(s[s.len() - 1].id), encode_utf8(s[k].id)));
                    }
                }
            }
        }
    } else {
        assert forall|x: HitView| #[trigger] r.contains(x) implies s.contains(x) || x == h by {
            let k = r.index_of(x);
            if k < s.len() {
                assert(s[k] == x);
            }
        }
        if in_order(s) {
            assert forall|i: int, j: int| 0 <= i < j < r.len() implies !bytes::lex_lt(
                encode_utf8((#[trigger] r[j]).id),
                encode_utf8((#[trigger] r[i]).id),
            ) by {
                if j < s.len() {
                    assert(r[i] == s[i] && r[j] == s[j]);
                } else if i < s.len() - 1 {
                    assert(r[i] == s[i]);
                    assert(!bytes::lex_lt(encode_utf8(s[s.len() - 1].id), encode_utf8(s[i].id)));
                    if bytes::lex_lt(encode_utf8(h.id), encode_utf8(s[i].id)) {
                        lemma_chain(encode_utf8(h.id), encode_utf8(s[i].id), encode_utf8(s.last().id));
                    }
                }
            }
        }
    }
}

/// What stands before one that is not after another stands before that one.
proof fn lemma_chain(a: Seq<u8>, b: Seq<u8>, c: Seq<u8>)
    requires
        bytes::lex_lt(a, b),
        !bytes::lex_lt(c, b),
    ensures
        bytes::lex_lt(a, c),
{
    bytes::lemma_lex_trichotomy(b, c);
    if bytes::lex_lt(b, c) {
        bytes::lemma_lex_transitive(a, b, c);
    }
}

/// Putting hits in order neither loses nor adds one.
pub proof fn lemma_ordered(s: Seq<HitView>)
    ensures
        in_order(ordered(s)),
        ordered(s).to_multiset() == s.to_multiset(),
    decreases s.len(),
{
    broadcast use vstd::seq_lib::group_to_multiset_ensures;

    if s.len() > 0 {
        lemma_ordered(s.drop_last());
        lemma_placed(ordered(s.drop_last()), s.last());
        assert(s =~= s.drop_last().push(s.last()));
    }
}

fn place_hit(out: &mut Vec<Hit>, hit: Hit)
    requires
        hits_wf(old(out)@),
        hit.record.wf(),
    ensures
        model::views(final(out)@) == placed(model::views(old(out)@), hit@),
        hits_wf(final(out)@),
{
    let ghost s = model::views(out@);
    let ghost h = hit@;
    let mut at: usize = out.len();
    let mut going: bool = true;
    assert(s.subrange(0, s.len() as int) =~= s);
    assert(placed(s, h) =~= placed(s.subrange(0, at as int), h) + s.subrange(at as int, s.len() as int));
    while going && at > 0
        invariant
            at <= out@.len() == s.len(),
            s == model::views(out@),
            out@ == old(out)@,
            h == hit@,
            going ==> placed(s, h) == placed(s.subrange(0, at as int), h) + s.subrange(at as int, s.len() as int),
            !going ==> placed(s, h) == s.subrange(0, at as int).push(h) + s.subrange(at as int, s.len() as int),
        decreases at, (if going { 1int } else { 0int }),
    {
        let ghost front = s.subrange(0, at as int);
        proof {
            assert(front.drop_last() =~= s.subrange(0, at - 1));
            assert(front.last() == out@[at - 1]@);
        }
        match bytes::place(hit.id.as_str().as_bytes(), out[at - 1].id.as_str().as_bytes()) {
            Place::Before => {
                assert(placed(s.subrange(0, at - 1), h).push(front.last()) + s.subrange(at as int, s.len() as int) =~= placed(
                    s.subrange(0, at - 1),
                    h,
                ) + s.subrange(at - 1, s.len() as int));
                at = at - 1;
            },
            _ => {
                going = false;
            },
        }
    }
    assert(placed(s, h) == s.subrange(0, at as int).push(h) + s.subrange(at as int, s.len() as int)) by {
        if going {
            assert(s.subrange(0, 0) =~= Seq::<HitView>::empty());
            assert(seq![h] =~= Seq::<HitView>::empty().push(h));
        }
    }
    let ghost before = out@;
    out.insert(at, hit);
    proof {
        assert(out@ == before.insert(at as int, hit));
        assert(model::views(out@) =~= s.subrange(0, at as int).push(h) + s.subrange(at as int, s.len() as int));
        assert forall|i: int| 0 <= i < out@.len() implies (#[trigger] out@[i]).record.wf() by {
            if i < at {
                assert(out@[i] == before[i]);
            } else if i > at {
                assert(out@[i] == before[i - 1]);
            }
        }
    }
}

fn order_hits(hits: Vec<Hit>) -> (r: Vec<Hit>)
    requires
        hits_wf(hits@),
    ensures
        model::views(r@) == ordered(model::views(hits@)),
        hits_wf(r@),
{
    let ghost s = model::views(hits@);
    let mut waiting: Vec<Hit> = Vec::new();
    let mut left = hits;
    while left.len() > 0
        invariant
            hits_wf(left@),
            hits_wf(waiting@),
            left@.len() + waiting@.len() == s.len(),
            model::views(left@) =~= s.subrange(0, left@.len() as int),
            forall|i: int| 0 <= i < waiting@.len() ==> (#[trigger] waiting@[i])@ == s[s.len() - 1 - i],
        decreases left@.len(),
    {
        let ghost was = left@;
        match left.pop() {
            Some(hit) => {
                assert(model::views(was)[was.len() - 1] == hit@);
                waiting.push(hit);
                assert(model::views(left@) =~= s.subrange(0, left@.len() as int)) by {
                    assert forall|i: int| 0 <= i < left@.len() implies model::views(left@)[i] == s[i] by {
                        assert(model::views(was)[i] == s[i]);
                    }
                }
            },
            None => {},
        }
    }
    let mut out: Vec<Hit> = Vec::new();
    assert(model::views(out@) =~= Seq::<HitView>::empty());
    assert(s.subrange(0, 0) =~= Seq::<HitView>::empty());
    while waiting.len() > 0
        invariant
            hits_wf(waiting@),
            hits_wf(out@),
            out@.len() + waiting@.len() == s.len(),
            forall|i: int| 0 <= i < waiting@.len() ==> (#[trigger] waiting@[i])@ == s[s.len() - 1 - i],
            model::views(out@) == ordered(s.subrange(0, out@.len() as int)),
        decreases waiting@.len(),
    {
        let ghost k = out@.len() as int;
        match waiting.pop() {
            Some(hit) => {
                proof {
                    let t = s.subrange(0, k + 1);
                    assert(t.drop_last() =~= s.subrange(0, k));
                    assert(t.last() == hit@);
                    lemma_placed(ordered(s.subrange(0, k)), hit@);
                }
                place_hit(&mut out, hit);
                assert(model::views(out@).len() == out@.len());
            },
            None => {},
        }
    }
    assert(s.subrange(0, s.len() as int) =~= s);
    out
}

// ---- The lookups ------------------------------------------------------------

/// A value whose key fits an index.
pub open spec fn has_key(v: ValueView) -> bool {
    value::encodable(v) && value::encoded(v).len() <= u32::MAX
}

/// What a lookup finds where neither the table nor the column is unknown and the
/// value is not null, before it is put in order: through the index of the
/// column, or else through all records.
pub open spec fn raw_answer(st: &State, read_only: bool, t: TableView, column: Seq<char>, v: ValueView, r: Result<Seq<HitView>, ErrorView>) -> bool {
    match state::slot_of(st.secondary@, t.name, column) {
        Some(slot) => index_answer(st, t, slot, v, None, None, r),
        None => if read_only {
            walk_answer(st, t, column, v, None, None, r)
        } else {
            r == streamed(st, t, column, v)
        },
    }
}

pub open spec fn eq_answer(st: &State, read_only: bool, t: TableView, column: Seq<char>, v: ValueView, r: Result<Seq<HitView>, ErrorView>) -> bool {
    exists|raw: Result<Seq<HitView>, ErrorView>|
        #[trigger] raw_answer(st, read_only, t, column, v, raw) && r == in_order_result(raw)
}

pub open spec fn in_order_result(r: Result<Seq<HitView>, ErrorView>) -> Result<Seq<HitView>, ErrorView> {
    match r {
        Ok(hits) => Ok(ordered(hits)),
        Err(e) => Err(e),
    }
}

impl State {
    fn find_by_index(&self, schema: &TableSchema, slot: usize, v: &Value, after: Option<&str>, limit: Option<usize>) -> (r: Result<Vec<Hit>, Error>)
        requires
            self.wf(),
            has_key(v@),
            slot < self.secondary@.len(),
            limit is None ==> after is None,
        ensures
            r matches Ok(hits) ==> hits_wf(hits@),
            index_answer(self, schema@, slot as int, v@, reads::str_view(after), limit, found(r)),
    {
        let key = index_key(v);
        let ghost from = after_bytes(reads::str_view(after));
        assert(from == visit::text_bytes(after));
        let listed = match limit {
            Some(l) => self.secondary[slot].index.ids_batch(key.as_slice(), after, l),
            None => self.secondary[slot].index.ids(key.as_slice()),
        };
        match listed {
            Err(e) => Err(e),
            Ok(ids) => {
                let ghost names = model::views(ids@);
                assert(ids_in_bytes(names) =~= secondary::id_bytes(ids@));
                read_listed(self, schema, ids)
            },
        }
    }

    fn find_raw(&self, read_only: bool, schema: &TableSchema, column: &str, v: &Value) -> (r: Result<Vec<Hit>, Error>)
        requires
            self.wf(),
            has_key(v@),
            encode_utf8(schema@.name).len() <= u32::MAX,
        ensures
            r matches Ok(hits) ==> hits_wf(hits@),
            raw_answer(self, read_only, schema@, column@, v@, found(r)),
    {
        match self.slot(schema.name.as_str(), column) {
            Some(i) => self.find_by_index(schema, i, v, None, None),
            None => {
                if read_only {
                    walk_for_eq(self, schema, column, v, None, None)
                } else {
                    find_eq_streaming(self, schema, column, v)
                }
            },
        }
    }

    /// The records with a value in a column, as they are now, in the order of
    /// their ids. No record has a null.
    pub fn find_eq(&self, read_only: bool, table: &str, column: &str, v: &Value) -> (r: Result<Vec<Hit>, Error>)
        requires
            self.wf(),
            has_key(v@),
        ensures
            r matches Ok(hits) ==> hits_wf(hits@),
            match self.table_view(table@) {
                None => r is Err && r->Err_0@ == ErrorView::TableNotFound(table@),
                Some(t) => if schema::column_of(t.columns, column@) is None {
                    r is Err && r->Err_0@ == record::unknown_column(column@)
                } else if v@ is Null {
                    r is Ok && r->Ok_0@.len() == 0
                } else {
                    eq_answer(self, read_only, t, column@, v@, found(r))
                },
            },
    {
        let schema = match self.catalog.table(table) {
            None => {
                return Err(table_not_found(table));
            },
            Some(t) => t,
        };
        proof {
            self.lemma_table(table@);
        }
        if schema.column(column).is_none() {
            return Err(Error::SchemaViolation("unknown column '".to_owned().concat(column).concat("'")));
        }
        if v.is_null() {
            return Ok(Vec::new());
        }
        let raw = self.find_raw(read_only, schema, column, v);
        let ghost rv = found(raw);
        match raw {
            Err(e) => {
                let done: Result<Vec<Hit>, Error> = Err(e);
                assert(found(done) == in_order_result(rv));
                done
            },
            Ok(hits) => {
                let done: Result<Vec<Hit>, Error> = Ok(order_hits(hits));
                assert(found(done) == in_order_result(rv));
                done
            },
        }
    }

    /// The first records after an id with a value in a column, at most `limit`.
    pub fn find_eq_batch(&self, table: &str, column: &str, v: &Value, after: Option<&str>, limit: usize) -> (r: Result<Vec<Hit>, Error>)
        requires
            self.wf(),
            has_key(v@),
        ensures
            r matches Ok(hits) ==> hits_wf(hits@),
            match self.table_view(table@) {
                None => r is Err && r->Err_0@ == ErrorView::TableNotFound(table@),
                Some(t) => if schema::column_of(t.columns, column@) is None {
                    r is Err && r->Err_0@ == record::unknown_column(column@)
                } else if v@ is Null || limit == 0 {
                    r is Ok && r->Ok_0@.len() == 0
                } else {
                    match state::slot_of(self.secondary@, table@, column@) {
                        Some(slot) => index_answer(self, t, slot, v@, reads::str_view(after), Some(limit), found(r)),
                        None => walk_answer(self, t, column@, v@, reads::str_view(after), Some(limit), found(r)),
                    }
                },
            },
    {
        let schema = match self.catalog.table(table) {
            None => {
                return Err(table_not_found(table));
            },
            Some(t) => t,
        };
        proof {
            self.lemma_table(table@);
        }
        if schema.column(column).is_none() {
            return Err(Error::SchemaViolation("unknown column '".to_owned().concat(column).concat("'")));
        }
        if v.is_null() || limit == 0 {
            return Ok(Vec::new());
        }
        match self.slot(table, column) {
            Some(i) => self.find_by_index(schema, i, v, after, Some(limit)),
            None => walk_for_eq(self, schema, column, v, after, Some(limit)),
        }
    }
}

// ---- Laws -------------------------------------------------------------------

/// Where an index agrees with the records, a lookup through it lists exactly the
/// records that have the value's key in the column now.
pub proof fn lemma_index_lists_matches(st: &State, slot: int, v: ValueView, ids: Seq<Seq<char>>)
    requires
        0 <= slot < st.secondary@.len(),
        crate::commit_laws::index_agrees(st, st.secondary@[slot]),
        has_key(v),
        st.secondary@[slot].index.is_id_list(value::encoded(v), None, None, ids_in_bytes(ids)),
    ensures
        forall|id: Seq<char>|
            ids.contains(id) <==> #[trigger] crate::commit_laws::current_key(
                st,
                st.secondary@[slot].table@,
                st.secondary@[slot].column@,
                id,
            ) == Some(value::encoded(v)),
{
    let index = st.secondary@[slot].index;
    let key = value::encoded(v);
    let listed = ids_in_bytes(ids);
    assert forall|id: Seq<char>|
        ids.contains(id) <==> #[trigger] crate::commit_laws::current_key(
            st,
            st.secondary@[slot].table@,
            st.secondary@[slot].column@,
            id,
        ) == Some(key) by {
        assert(index.member(key, encode_utf8(id)) <==> crate::commit_laws::current_key(
            st,
            st.secondary@[slot].table@,
            st.secondary@[slot].column@,
            id,
        ) == Some(key));
        if ids.contains(id) {
            let k = ids.index_of(id);
            assert(listed[k] == encode_utf8(id));
        }
        if index.member(key, encode_utf8(id)) {
            assert(listed.contains(encode_utf8(id)));
            let k = listed.index_of(encode_utf8(id));
            bytes::lemma_utf8_injective(ids[k], id);
        }
    }
}

} // verus!
