//! Publishing a commit: all of its changes under one version.

use crate::apply::{self, IndexEvent, Step};
use crate::bytes;
use crate::model;
use crate::primary;
use crate::record::{Record, RecordView};
use crate::secondary::{self, PairChange};
use crate::segment::{self, obsolete_entry_bytes_estimate};
use crate::staged::{self, PreparedChange, PreparedTable, StagedView};
use crate::state::{SecSlot, State};
use crate::version::{KindView, VKind, VersionEntry, VersionView};
use vstd::prelude::*;
use vstd::utf8::*;

verus! {

/// What a change supersedes: the version before it, and the record of that
/// version where an index needs it.
pub struct Previous {
    pub entry: Option<VersionEntry>,
    pub prior: Option<Record>,
}

#[verifier::ext_equal]
pub struct PreviousView {
    pub entry: Option<VersionView>,
    pub prior: Option<RecordView>,
}

impl View for Previous {
    type V = PreviousView;

    open spec fn view(&self) -> PreviousView {
        PreviousView { entry: primary::option_view(self.entry), prior: apply::option_record(self.prior) }
    }
}

pub open spec fn previous_views(p: Seq<Vec<Previous>>) -> Seq<Seq<PreviousView>> {
    Seq::new(p.len(), |i: int| model::views(p[i]@))
}

/// There is one entry for each change.
pub open spec fn previous_fits(staged: Seq<PreparedTable>, p: Seq<Vec<Previous>>) -> bool {
    &&& p.len() == staged.len()
    &&& forall|i: int| 0 <= i < p.len() ==> (#[trigger] p[i])@.len() == staged[i].changes@.len()
    &&& forall|i: int, j: int| 0 <= i < p.len() && 0 <= j < p[i]@.len() ==> ((#[trigger] p[i]@[j]).prior matches Some(rec) ==> rec.wf())
}

// ---- The changes in order ---------------------------------------------------

pub open spec fn step_of(t: StagedView, p: Seq<PreviousView>, j: int) -> Step {
    Step {
        table: t.name,
        schema: t.schema,
        id: t.changes[j].id,
        prior: p[j].prior,
        put: t.changes[j].operation,
        payload: t.changes[j].payload,
    }
}

/// The first `n` changes of a table.
pub open spec fn table_steps(t: StagedView, p: Seq<PreviousView>, n: int) -> Seq<Step>
    decreases n,
{
    if n <= 0 {
        Seq::empty()
    } else {
        table_steps(t, p, n - 1).push(step_of(t, p, n - 1))
    }
}

/// The changes of the first `n` tables.
pub open spec fn all_steps(staged: Seq<StagedView>, p: Seq<Seq<PreviousView>>, n: int) -> Seq<Step>
    decreases n,
{
    if n <= 0 {
        Seq::empty()
    } else {
        all_steps(staged, p, n - 1) + table_steps(staged[n - 1], p[n - 1], staged[n - 1].changes.len() as int)
    }
}

/// The changes of a commit.
pub open spec fn steps(staged: Seq<StagedView>, p: Seq<Seq<PreviousView>>) -> Seq<Step> {
    all_steps(staged, p, staged.len() as int)
}

/// The resident versions after the changes.
pub open spec fn delta_after(delta: Map<Seq<u8>, Seq<VersionView>>, list: Seq<Step>, version: u64) -> Map<Seq<u8>, Seq<VersionView>>
    decreases list.len(),
{
    if list.len() == 0 {
        delta
    } else {
        apply::push_entry(
            delta_after(delta, list.drop_last(), version),
            apply::step_key(list.last()),
            apply::step_entry(list.last(), version),
        )
    }
}

/// The changes of an index after one committed change.
pub open spec fn overlay_step(slot: SecSlot, overlay: Map<Seq<u8>, PairChange>, s: Step) -> Map<Seq<u8>, PairChange> {
    if apply::concerns(slot, s, s.schema.indexes.len() as int) {
        let id = encode_utf8(s.id);
        let removed = match apply::key_of_record(s.prior, slot.column@) {
            None => overlay,
            Some(k) => if slot.index.runs@.len() == 0 {
                overlay.remove(secondary::pair_of(k, id))
            } else {
                overlay.insert(secondary::pair_of(k, id), PairChange::Removed)
            },
        };
        apply::overlay_added(removed, apply::key_of_record(s.put, slot.column@), id)
    } else {
        overlay
    }
}

pub open spec fn overlay_steps(slot: SecSlot, overlay: Map<Seq<u8>, PairChange>, list: Seq<Step>) -> Map<Seq<u8>, PairChange>
    decreases list.len(),
{
    if list.len() == 0 {
        overlay
    } else {
        overlay_step(slot, overlay_steps(slot, overlay, list.drop_last()), list.last())
    }
}

pub open spec fn events_of(list: Seq<Step>) -> Seq<apply::EventView>
    decreases list.len(),
{
    if list.len() == 0 {
        Seq::empty()
    } else {
        events_of(list.drop_last()) + apply::events_of(list.last())
    }
}

/// The index and the equality indexes after the changes.
pub open spec fn changed(before: &State, after: &State, list: Seq<Step>, version: u64) -> bool {
    &&& after.index.wf()
    &&& after.index.generation == before.index.generation
    &&& after.index.runs == before.index.runs
    &&& after.index.frozen == before.index.frozen
    &&& after.index.delta@ == delta_after(before.index.delta@, list, version)
    &&& apply::slots_same(before.secondary@, after.secondary@)
    &&& forall|i: int| 0 <= i < after.secondary@.len() ==> {
        &&& (#[trigger] after.secondary@[i]).index.wf()
        &&& after.secondary@[i].index.overlay@ == overlay_steps(
            before.secondary@[i],
            before.secondary@[i].index.overlay@,
            list,
        )
    }
}

/// Everything else is as it was.
pub open spec fn same_rest(before: &State, after: &State) -> bool {
    &&& after.catalog == before.catalog
    &&& after.identities == before.identities
    &&& after.segments == before.segments
    &&& after.metas == before.metas
    &&& after.next_segment_id == before.next_segment_id
    &&& after.blobs == before.blobs
}

proof fn lemma_changed_step(before: &State, middle: &State, after: &State, list: Seq<Step>, s: Step, version: u64)
    requires
        changed(before, middle, list, version),
        apply::applied(middle, after, s, version),
    ensures
        changed(before, after, list.push(s), version),
{
    let more = list.push(s);
    assert(more.drop_last() =~= list);
    assert forall|i: int| 0 <= i < after.secondary@.len() implies ({
        &&& (#[trigger] after.secondary@[i]).index.wf()
        &&& after.secondary@[i].index.overlay@ == overlay_steps(before.secondary@[i], before.secondary@[i].index.overlay@, more)
    }) by {
        let slot = before.secondary@[i];
        let mid = middle.secondary@[i];
        assert(apply::same_slot(slot, mid));
        assert(mid.index.overlay@ == overlay_steps(slot, slot.index.overlay@, list));
        let n = s.schema.indexes.len() as int;
        assert(apply::concerns(slot, s, n) == apply::concerns(mid, s, n));
    }
    assert forall|i: int| 0 <= i < before.secondary@.len() implies apply::same_slot(
        #[trigger] before.secondary@[i],
        after.secondary@[i],
    ) by {
        assert(apply::same_slot(before.secondary@[i], middle.secondary@[i]));
        assert(apply::same_slot(middle.secondary@[i], after.secondary@[i]));
    }
}

// ---- Greatest ids and superseded segments -----------------------------------

/// The greatest ids after the changes of the first `n` tables.
pub open spec fn highs_after(high: Map<Seq<u8>, Seq<char>>, staged: Seq<StagedView>, n: int) -> Map<Seq<u8>, Seq<char>>
    decreases n,
{
    if n <= 0 {
        high
    } else {
        let h = highs_after(high, staged, n - 1);
        let t = staged[n - 1];
        if t.changes.len() == 0 {
            h
        } else {
            let key = encode_utf8(t.name);
            let id = t.changes.last().id;
            if !h.contains_key(key) || bytes::lex_lt(encode_utf8(h[key]), encode_utf8(id)) {
                h.insert(key, id)
            } else {
                h
            }
        }
    }
}

/// A change supersedes a put of the segment.
pub open spec fn supersedes(p: Seq<Seq<PreviousView>>, i: int, j: int, segment: u32) -> bool {
    &&& 0 <= i < p.len()
    &&& 0 <= j < p[i].len()
    &&& p[i][j].entry matches Some(v) && v.kind matches KindView::SegPut { segment: s, .. } && s == segment
}

// ---- Sizes ------------------------------------------------------------------

pub open spec fn step_bytes(s: Step) -> int {
    (match s.payload {
        Some(p) => p.len() as int,
        None => 0,
    }) + 32
}

pub open spec fn added_bytes(list: Seq<Step>) -> int
    decreases list.len(),
{
    if list.len() == 0 {
        0
    } else {
        added_bytes(list.drop_last()) + step_bytes(list.last())
    }
}

/// What a change makes obsolete: operations and bytes.
pub open spec fn obsolete_of(t: StagedView, p: Seq<PreviousView>, j: int) -> (int, int) {
    match p[j].entry {
        Some(v) => (
            1,
            segment::capped64(
                segment::entry_size(encode_utf8(t.name), encode_utf8(t.changes[j].id), segment::payload_size(v.kind)),
            ),
        ),
        None => if t.changes[j].operation is None {
            (1, 0)
        } else {
            (0, 0)
        },
    }
}

pub open spec fn table_obsolete(t: StagedView, p: Seq<PreviousView>, n: int) -> (int, int)
    decreases n,
{
    if n <= 0 {
        (0, 0)
    } else {
        let a = table_obsolete(t, p, n - 1);
        let b = obsolete_of(t, p, n - 1);
        (a.0 + b.0, a.1 + b.1)
    }
}

pub open spec fn all_obsolete(staged: Seq<StagedView>, p: Seq<Seq<PreviousView>>, n: int) -> (int, int)
    decreases n,
{
    if n <= 0 {
        (0, 0)
    } else {
        let a = all_obsolete(staged, p, n - 1);
        let b = table_obsolete(staged[n - 1], p[n - 1], staged[n - 1].changes.len() as int);
        (a.0 + b.0, a.1 + b.1)
    }
}

/// Count what one change makes obsolete.
pub fn count_obsolete(table: &str, change: &PreparedChange, previous: &Option<VersionEntry>, operations: u64, bytes: u64) -> (r: (u64, u64))
    ensures
        ({
            let (ops, size) = match *previous {
                Some(v) => (
                    1int,
                    segment::capped64(
                        segment::entry_size(encode_utf8(table@), encode_utf8(change.id@), segment::payload_size(v@.kind)),
                    ),
                ),
                None => if change.operation is None {
                    (1int, 0int)
                } else {
                    (0int, 0int)
                },
            };
            r.0 == segment::capped64(operations + ops) && r.1 == segment::capped64(bytes + size)
        }),
{
    match previous {
        Some(v) => (
            operations.saturating_add(1),
            bytes.saturating_add(obsolete_entry_bytes_estimate(table, change.id.as_str(), v)),
        ),
        None => {
            if change.operation.is_none() {
                (operations.saturating_add(1), bytes)
            } else {
                (operations, bytes)
            }
        },
    }
}

/// What a published commit leaves to do: what text and vector indexes must be
/// told, and how much grew and became obsolete.
pub struct Published {
    pub events: Vec<IndexEvent>,
    pub added: u64,
    pub obsolete_operations: u64,
    pub obsolete_bytes: u64,
}

/// The state after a commit: its changes are there under its version, and
/// nothing else changed.
pub open spec fn published(
    before: &State,
    after: &State,
    staged: Seq<StagedView>,
    p: Seq<Seq<PreviousView>>,
    version: u64,
) -> bool {
    &&& after.wf()
    &&& changed(before, after, steps(staged, p), version)
    &&& same_rest(before, after)
    &&& after.committed_version == version
    &&& after.high_ids@ == highs_after(before.high_ids@, staged, staged.len() as int)
    &&& forall|x: u32| #[trigger] after.superseded@.contains(x) <==> before.superseded@.contains(x) || exists|i: int, j: int|
        #[trigger] supersedes(p, i, j, x)
}

fn note_superseded(list: &mut Vec<u32>, entry: &Option<VersionEntry>)
    ensures
        forall|x: u32| #[trigger] final(list)@.contains(x) <==> old(list)@.contains(x) || (match *entry {
            Some(v) => match v@.kind {
                KindView::SegPut { segment, .. } => segment == x,
                _ => false,
            },
            None => false,
        }),
{
    let ghost before = list@;
    let wanted: Option<u32> = match entry {
        None => None,
        Some(v) => match &v.kind {
            VKind::SegPut { segment, .. } => Some(*segment),
            _ => None,
        },
    };
    let segment: u32 = match wanted {
        Some(segment) => segment,
        None => {
            return;
        },
    };
    if contains_id(list, segment) {
        return;
    }
    list.push(segment);
    proof {
        assert(list@[before.len() as int] == segment);
        assert forall|x: u32| #[trigger] list@.contains(x) <==> before.contains(x) || segment == x by {
            if before.contains(x) {
                assert(list@[before.index_of(x)] == x);
            }
            if list@.contains(x) {
                let k = list@.index_of(x);
                if k < before.len() {
                    assert(before[k] == x);
                }
            }
        }
    }
}

/// Whether a list of segment ids has one.
pub fn contains_id(list: &Vec<u32>, id: u32) -> (r: bool)
    ensures
        r == list@.contains(id),
{
    let mut i: usize = 0;
    while i < list.len()
        invariant
            i <= list@.len(),
            forall|j: int| 0 <= j < i ==> list@[j] != id,
        decreases list@.len() - i,
    {
        if list[i] == id {
            return true;
        }
        i = i + 1;
    }
    false
}

impl State {
    /// Publish a commit: apply all of its changes under one version.
    #[verifier::rlimit(60)]
    pub fn publish(&mut self, version: u64, staged: &Vec<PreparedTable>, previous: &Vec<Vec<Previous>>) -> (r: Published)
        requires
            old(self).wf(),
            staged::tables_wf(staged@),
            previous_fits(staged@, previous@),
            forall|i: int| 0 <= i < staged@.len() ==> encode_utf8((#[trigger] staged@[i]).name@).len() <= u32::MAX,
        ensures
            published(old(self), final(self), model::views(staged@), previous_views(previous@), version),
            ({
                let list = steps(model::views(staged@), previous_views(previous@));
                let obsolete = all_obsolete(model::views(staged@), previous_views(previous@), staged@.len() as int);
                &&& model::views(r.events@) == events_of(list)
                &&& r.added == segment::capped64(added_bytes(list))
                &&& r.obsolete_operations == segment::capped64(obsolete.0)
                &&& r.obsolete_bytes == segment::capped64(obsolete.1)
            }),
    {
        let ghost all = model::views(staged@);
        let ghost pv = previous_views(previous@);
        let ghost before = *self;
        let mut events: Vec<IndexEvent> = Vec::new();
        let mut added: u64 = 0;
        let mut operations: u64 = 0;
        let mut bytes: u64 = 0;
        let ghost mut list: Seq<Step> = Seq::empty();
        let ghost mut spent: (int, int) = (0, 0);
        let mut i: usize = 0;
        assert(model::views(events@) =~= Seq::<apply::EventView>::empty());
        while i < staged.len()
            invariant
                before == *old(self),
                before.wf(),
                staged::tables_wf(staged@),
                previous_fits(staged@, previous@),
                forall|i: int| 0 <= i < staged@.len() ==> encode_utf8((#[trigger] staged@[i]).name@).len() <= u32::MAX,
                all == model::views(staged@),
                pv == previous_views(previous@),
                i <= staged@.len(),
                list == all_steps(all, pv, i as int),
                self.wf(),
                changed(&before, self, list, version),
                same_rest(&before, self),
                self.high_ids@ == highs_after(before.high_ids@, all, i as int),
                forall|x: u32| #[trigger] self.superseded@.contains(x) <==> before.superseded@.contains(x) || exists|p: int, q: int|
                    #[trigger] supersedes(pv, p, q, x) && p < i,
                model::views(events@) == events_of(list),
                added == segment::capped64(added_bytes(list)),
                added_bytes(list) >= 0,
                spent == all_obsolete(all, pv, i as int),
                spent.0 >= 0 && spent.1 >= 0,
                operations == segment::capped64(spent.0),
                bytes == segment::capped64(spent.1),
            decreases staged@.len() - i,
        {
            let t = &staged[i];
            let tp = &previous[i];
            assert(all[i as int] == t@);
            assert(pv[i as int] == model::views(tp@));
            assert(t.wf());
            let ghost start_list = list;
            let ghost start_spent = spent;
            let mut j: usize = 0;
            assert(start_list + table_steps(all[i as int], pv[i as int], 0) =~= start_list);
            while j < t.changes.len()
                invariant
                    before == *old(self),
                    before.wf(),
                    i < staged@.len(),
                    *t == staged@[i as int],
                    *tp == previous@[i as int],
                    t.wf(),
                    previous_fits(staged@, previous@),
                    encode_utf8(t.name@).len() <= u32::MAX,
                    all == model::views(staged@),
                    pv == previous_views(previous@),
                    all[i as int] == t@,
                    pv[i as int] == model::views(tp@),
                    j <= t.changes@.len(),
                    list == start_list + table_steps(all[i as int], pv[i as int], j as int),
                    start_list == all_steps(all, pv, i as int),
                    self.wf(),
                    changed(&before, self, list, version),
                    same_rest(&before, self),
                    self.high_ids@ == highs_after(before.high_ids@, all, i as int),
                    forall|x: u32| #[trigger] self.superseded@.contains(x) <==> before.superseded@.contains(x) || exists|p: int, q: int|
                        #[trigger] supersedes(pv, p, q, x) && (p < i || (p == i && q < j)),
                    model::views(events@) == events_of(list),
                    added == segment::capped64(added_bytes(list)),
                    added_bytes(list) >= 0,
                    start_spent == all_obsolete(all, pv, i as int),
                    ({
                        let part = table_obsolete(all[i as int], pv[i as int], j as int);
                        spent == (start_spent.0 + part.0, start_spent.1 + part.1)
                    }),
                    spent.0 >= 0 && spent.1 >= 0,
                    operations == segment::capped64(spent.0),
                    bytes == segment::capped64(spent.1),
                decreases t.changes@.len() - j,
            {
                let change = &t.changes[j];
                let prev = &tp[j];
                let ghost s = step_of(all[i as int], pv[i as int], j as int);
                proof {
                    assert(change.wf());
                    assert(all[i as int].changes[j as int] == change@);
                    assert(pv[i as int][j as int] == prev@);
                    assert(tp@[j as int].prior matches Some(rec) ==> rec.wf());
                }
                let counted = count_obsolete(t.name.as_str(), change, &prev.entry, operations, bytes);
                operations = counted.0;
                bytes = counted.1;
                proof {
                    let one = obsolete_of(all[i as int], pv[i as int], j as int);
                    spent = (spent.0 + one.0, spent.1 + one.1);
                }
                let ghost sup = self.superseded@;
                note_superseded(&mut self.superseded, &prev.entry);
                let ghost middle = *self;
                self.apply_one(
                    version,
                    &t.schema,
                    t.name.as_str(),
                    change.id.as_str(),
                    &change.operation,
                    &change.payload,
                    &prev.prior,
                    &mut events,
                );
                let size: u64 = match &change.payload {
                    Some(p) => p.len() as u64,
                    None => 0,
                };
                added = added.saturating_add(size).saturating_add(32);
                proof {
                    assert(apply::applied(&middle, self, s, version));
                    assert(changed(&before, &middle, list, version));
                    lemma_changed_step(&before, &middle, self, list, s, version);
                    apply::lemma_slots_same(before.secondary@, self.secondary@, t.name@, t.name@);
                    let more = list.push(s);
                    assert(more.drop_last() =~= list);
                    assert(start_list + table_steps(all[i as int], pv[i as int], j + 1) =~= more);
                    list = more;
                    assert forall|x: u32| #[trigger] self.superseded@.contains(x) <==> before.superseded@.contains(x) || exists|
                        p: int,
                        q: int,
                    | #[trigger] supersedes(pv, p, q, x) && (p < i || (p == i && q < j + 1)) by {
                        if sup.contains(x) && !before.superseded@.contains(x) {
                            let (p, q) = choose|p: int, q: int|
                                #[trigger] supersedes(pv, p, q, x) && (p < i || (p == i && q < j));
                            assert(supersedes(pv, p, q, x) && (p < i || (p == i && q < j + 1)));
                        }
                        if self.superseded@.contains(x) && !sup.contains(x) {
                            assert(supersedes(pv, i as int, j as int, x));
                        }
                    }
                }
                j = j + 1;
            }
            let ghost prior_state = *self;
            if t.changes.len() > 0 {
                let last = &t.changes[t.changes.len() - 1];
                assert(all[i as int].changes.last() == last@);
                self.record_high_id(t.name.as_str(), last.id.as_str());
            }
            proof {
                assert(all_steps(all, pv, i + 1) =~= list);
                assert forall|x: u32| #[trigger] self.superseded@.contains(x) <==> before.superseded@.contains(x) || exists|
                    p: int,
                    q: int,
                | #[trigger] supersedes(pv, p, q, x) && p < i + 1 by {
                    if self.superseded@.contains(x) && !before.superseded@.contains(x) {
                        let (p, q) = choose|p: int, q: int| #[trigger] supersedes(pv, p, q, x) && (p < i || (p == i && q < j));
                        assert(supersedes(pv, p, q, x) && p < i + 1);
                    }
                }
            }
            i = i + 1;
        }
        self.committed_version = version;
        proof {
            assert forall|x: u32| #[trigger] self.superseded@.contains(x) <==> before.superseded@.contains(x) || exists|p: int, q: int|
                #[trigger] supersedes(pv, p, q, x) by {
                if exists|p: int, q: int| #[trigger] supersedes(pv, p, q, x) {
                    let (p, q) = choose|p: int, q: int| #[trigger] supersedes(pv, p, q, x);
                    assert(supersedes(pv, p, q, x) && p < i);
                }
            }
        }
        Published { events, added, obsolete_operations: operations, obsolete_bytes: bytes }
    }
}

} // verus!
