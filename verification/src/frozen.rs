//! Publishing the changes of equality indexes in the background.

use crate::cow::CowMap;
use crate::derived::{self, DERIVED_BASE_LEVEL};
use crate::error::{corrupt, Error, ErrorView};
use crate::paged::PagedIndex;
use crate::pairs;
use crate::pipeline::BackgroundStatus;
use crate::primary::{Run, RunMeta};
use crate::bytes::{self, same_text};
use crate::cow;
use crate::order::OrderedKey;
use crate::secondary::{self, PairChange, SecIdx};
use crate::state::{self, SecSlot, State};
use std::sync::Arc;
use vstd::prelude::*;
use vstd::string::*;

verus! {

/// The changes of one index as they stood when they were set aside. The index
/// keeps them until a run with them is published.
pub struct FrozenChanges {
    pub table: String,
    pub column: String,
    pub generation: u64,
    /// Tells two freezes of one index apart.
    pub ticket: u64,
    pub changes: CowMap<Vec<u8>, PairChange>,
}

impl FrozenChanges {
    pub open spec fn wf(&self) -> bool {
        self.changes.wf()
    }
}

/// What was set aside and is not published yet.
pub struct FrozenBoard {
    pub frozen: Vec<FrozenChanges>,
}

pub open spec fn is_for(f: FrozenChanges, table: Seq<char>, column: Seq<char>) -> bool {
    f.table@ == table && f.column@ == column
}

pub open spec fn has_frozen(s: Seq<FrozenChanges>, table: Seq<char>, column: Seq<char>) -> bool {
    exists|i: int| 0 <= i < s.len() && is_for(#[trigger] s[i], table, column)
}

/// The changes of one index were set aside now.
pub open spec fn froze_slot(slot: SecSlot, version: u64, ticket: u64, f: FrozenChanges) -> bool {
    &&& is_for(f, slot.table@, slot.column@)
    &&& f.generation == version
    &&& f.ticket == ticket
    &&& f.changes@ == slot.index.overlay@
    &&& f.changes.wf()
    &&& slot.index.overlay.pairs().len() > 0
}

/// Some index of the first `n` has changes that are set aside.
pub open spec fn any_frozen(slots: Seq<SecSlot>, s: Seq<FrozenChanges>, n: int) -> bool {
    exists|k: int| 0 <= k < n && has_frozen(s, (#[trigger] slots[k]).table@, slots[k].column@)
}

impl FrozenBoard {
    pub open spec fn wf(&self) -> bool {
        forall|i: int| 0 <= i < self.frozen@.len() ==> (#[trigger] self.frozen@[i]).wf()
    }

    pub fn new() -> (r: FrozenBoard)
        ensures
            r.wf(),
            r.frozen@.len() == 0,
    {
        FrozenBoard { frozen: Vec::new() }
    }

    /// The position of what was set aside of an index.
    pub fn position(&self, table: &str, column: &str) -> (r: Option<usize>)
        ensures
            r matches Some(i) ==> i < self.frozen@.len() && is_for(self.frozen@[i as int], table@, column@),
            r is None ==> !has_frozen(self.frozen@, table@, column@),
    {
        let mut i: usize = 0;
        while i < self.frozen.len()
            invariant
                i <= self.frozen@.len(),
                forall|k: int| 0 <= k < i ==> !is_for(#[trigger] self.frozen@[k], table@, column@),
            decreases self.frozen@.len() - i,
        {
            let f = &self.frozen[i];
            if same_text(f.table.as_str(), table) && same_text(f.column.as_str(), column) {
                return Some(i);
            }
            i = i + 1;
        }
        None
    }

    /// Set the changes of every index aside that has some, and has none set
    /// aside yet. The result says whether there is anything to publish;
    /// `others` that other kinds of indexes have something.
    pub fn schedule_frozen_derived(&mut self, st: &State, status: &mut BackgroundStatus, ticket: u64, others: bool) -> (r: bool)
        requires
            old(self).wf(),
            st.wf(),
        ensures
            final(self).wf(),
            old(status).running ==> !r && *final(status) == *old(status) && final(self).frozen@ == old(self).frozen@,
            !old(status).running ==> {
                &&& final(status).last_error is None
                &&& final(status).running == r
                &&& final(status).commit_unknown == old(status).commit_unknown
                &&& r == (others || any_frozen(st.secondary@, final(self).frozen@, st.secondary@.len() as int))
                &&& old(self).frozen@.is_prefix_of(final(self).frozen@)
                &&& forall|k: int|
                    0 <= k < st.secondary@.len() && (#[trigger] st.secondary@[k]).index.overlay.pairs().len() > 0 ==> has_frozen(
                        final(self).frozen@,
                        st.secondary@[k].table@,
                        st.secondary@[k].column@,
                    )
                &&& forall|i: int|
                    old(self).frozen@.len() <= i < final(self).frozen@.len() ==> new_freeze(
                        st,
                        ticket,
                        #[trigger] final(self).frozen@[i],
                    )
            },
    {
        if status.running {
            return false;
        }
        status.last_error = None;
        let ghost start = self.frozen@;
        let mut any: bool = false;
        let mut i: usize = 0;
        while i < st.secondary.len()
            invariant
                st.wf(),
                self.wf(),
                i <= st.secondary@.len(),
                start.is_prefix_of(self.frozen@),
                any == any_frozen(st.secondary@, self.frozen@, i as int),
                forall|k: int|
                    0 <= k < i && (#[trigger] st.secondary@[k]).index.overlay.pairs().len() > 0 ==> has_frozen(
                        self.frozen@,
                        st.secondary@[k].table@,
                        st.secondary@[k].column@,
                    ),
                forall|x: int| start.len() <= x < self.frozen@.len() ==> new_freeze(st, ticket, #[trigger] self.frozen@[x]),
                status.last_error is None,
                !status.running,
                status.commit_unknown == old(status).commit_unknown,
            decreases st.secondary@.len() - i,
        {
            let slot = &st.secondary[i];
            let ghost before = self.frozen@;
            assert(slot.index.wf());
            let found: bool = match self.position(slot.table.as_str(), slot.column.as_str()) {
                Some(at) => {
                    assert(is_for(self.frozen@[at as int], slot.table@, slot.column@));
                    true
                },
                None => false,
            };
            if found {
                any = true;
            } else if !slot.index.overlay.is_empty() {
                self.frozen.push(
                    FrozenChanges {
                        table: slot.table.clone(),
                        column: slot.column.clone(),
                        generation: st.committed_version,
                        ticket,
                        changes: slot.index.overlay.duplicate_map(),
                    },
                );
                any = true;
                assert(froze_slot(st.secondary@[i as int], st.committed_version, ticket, self.frozen@.last()));
            }
            proof {
                let now = self.frozen@;
                lemma_frozen_grows(before, now);
                if now.len() > before.len() {
                    assert(is_for(now[before.len() as int], slot.table@, slot.column@));
                }
                assert(any == any_frozen(st.secondary@, now, i + 1)) by {
                    if any_frozen(st.secondary@, before, i as int) {
                        let k = choose|k: int|
                            0 <= k < i && has_frozen(before, (#[trigger] st.secondary@[k]).table@, st.secondary@[k].column@);
                        assert(has_frozen(now, st.secondary@[k].table@, st.secondary@[k].column@));
                    }
                    if any_frozen(st.secondary@, now, i + 1) && now == before {
                        let k = choose|k: int|
                            0 <= k < i + 1 && has_frozen(now, (#[trigger] st.secondary@[k]).table@, st.secondary@[k].column@);
                        if k < i {
                            assert(any_frozen(st.secondary@, before, i as int));
                        }
                    }
                    if has_frozen(now, slot.table@, slot.column@) {
                        assert(has_frozen(now, st.secondary@[i as int].table@, st.secondary@[i as int].column@));
                    }
                }
                assert forall|k: int|
                    0 <= k < i + 1 && (#[trigger] st.secondary@[k]).index.overlay.pairs().len() > 0 implies has_frozen(
                    now,
                    st.secondary@[k].table@,
                    st.secondary@[k].column@,
                ) by {
                    if k < i {
                        assert(has_frozen(before, st.secondary@[k].table@, st.secondary@[k].column@));
                    }
                }
                assert forall|x: int| 0 <= x < now.len() implies (#[trigger] now[x]).wf() by {
                    if x < before.len() {
                        assert(now[x] == before[x]);
                    }
                }
                assert forall|x: int| start.len() <= x < now.len() implies new_freeze(st, ticket, #[trigger] now[x]) by {
                    if x < before.len() {
                        assert(now[x] == before[x]);
                    }
                }
            }
            i = i + 1;
        }
        let r: bool = any || others;
        status.running = r;
        r
    }
}

pub open spec fn new_freeze(st: &State, ticket: u64, f: FrozenChanges) -> bool {
    exists|k: int| 0 <= k < st.secondary@.len() && froze_slot(#[trigger] st.secondary@[k], st.committed_version, ticket, f)
}

proof fn lemma_frozen_grows(a: Seq<FrozenChanges>, b: Seq<FrozenChanges>)
    requires
        a.is_prefix_of(b),
    ensures
        forall|table: Seq<char>, column: Seq<char>| #[trigger] has_frozen(a, table, column) ==> has_frozen(b, table, column),
{
    assert forall|table: Seq<char>, column: Seq<char>| #[trigger] has_frozen(a, table, column) implies has_frozen(b, table, column) by {
        let i = choose|i: int| 0 <= i < a.len() && is_for(#[trigger] a[i], table, column);
        assert(b[i] == a[i]);
    }
}

/// No worker takes the job: nothing runs.
pub fn derived_worker_gone(status: &mut BackgroundStatus) -> (r: Error)
    ensures
        !final(status).running,
        final(status).last_error == old(status).last_error,
        final(status).commit_unknown == old(status).commit_unknown,
        r@ == ErrorView::Io("derived-index maintenance worker is unavailable"@),
{
    status.running = false;
    Error::Io("derived-index maintenance worker is unavailable".to_owned())
}

/// What waiting for the background gives: the failure that was left, once.
pub fn derived_outcome(status: &mut BackgroundStatus) -> (r: Result<(), Error>)
    ensures
        final(status).running == old(status).running,
        final(status).commit_unknown == old(status).commit_unknown,
        final(status).last_error is None,
        match old(status).last_error {
            None => r is Ok,
            Some(m) => r is Err && r->Err_0@ == ErrorView::Io("background derived-index publication failed: "@ + m@),
        },
{
    match status.last_error.take() {
        None => Ok(()),
        Some(m) => Err(
            Error::Io("background derived-index publication failed: ".to_owned().concat(m.as_str())),
        ),
    }
}

/// The stages of publishing one index.
#[derive(Clone, Copy, PartialEq, Eq, Structural, Debug)]
pub enum DerivedStage {
    Initializing,
    Writing,
    Publishing,
    PreparingManifest,
}

/// The kinds of derived indexes.
#[derive(Clone, Copy, PartialEq, Eq, Structural, Debug)]
pub enum DerivedKind {
    Secondary,
    Text,
    Vector,
}

pub open spec fn kind_name(kind: DerivedKind) -> Seq<char> {
    match kind {
        DerivedKind::Secondary => "secondary"@,
        DerivedKind::Text => "text"@,
        DerivedKind::Vector => "vector"@,
    }
}

pub fn kind_text(kind: DerivedKind) -> (r: &'static str)
    ensures
        r@ == kind_name(kind),
{
    match kind {
        DerivedKind::Secondary => "secondary",
        DerivedKind::Text => "text",
        DerivedKind::Vector => "vector",
    }
}

pub open spec fn stage_name(stage: DerivedStage, kind: DerivedKind, table: Seq<char>, column: Seq<char>) -> Seq<char> {
    match stage {
        DerivedStage::Initializing => "initializing derived-index publication"@,
        DerivedStage::Writing => "writing "@ + kind_name(kind) + " index "@ + table + "."@ + column,
        DerivedStage::Publishing => "publishing "@ + kind_name(kind) + " index "@ + table + "."@ + column,
        DerivedStage::PreparingManifest => "preparing "@ + kind_name(kind) + " run manifest "@ + table + "."@ + column,
    }
}

/// A failure in the background, with the stage in which it came.
pub fn stage_error(stage: DerivedStage, kind: DerivedKind, table: &str, column: &str, error: &str) -> (r: Error)
    ensures
        r@ == ErrorView::Io(stage_name(stage, kind, table@, column@) + ": "@ + error@),
{
    let name = match stage {
        DerivedStage::Initializing => "initializing derived-index publication".to_owned(),
        DerivedStage::Writing => "writing ".to_owned().concat(kind_text(kind)).concat(" index ").concat(table).concat(".").concat(
            column,
        ),
        DerivedStage::Publishing => "publishing ".to_owned().concat(kind_text(kind)).concat(" index ").concat(table).concat(
            ".",
        ).concat(column),
        DerivedStage::PreparingManifest => "preparing ".to_owned().concat(kind_text(kind)).concat(" run manifest ").concat(
            table,
        ).concat(".").concat(column),
    };
    Error::Io(name.concat(": ").concat(error))
}

// ---- Taking a run over ------------------------------------------------------

/// The freeze still stands.
pub open spec fn still_frozen(s: Seq<FrozenChanges>, table: Seq<char>, column: Seq<char>, ticket: u64) -> bool {
    exists|i: int| 0 <= i < s.len() && is_for(#[trigger] s[i], table, column) && s[i].ticket == ticket
}

/// The changes that stay when a run with `frozen` is there: those that the run
/// does not say, and removals of pairs that went away while it was written.
pub open spec fn rest_change(now: Map<Seq<u8>, PairChange>, frozen: Map<Seq<u8>, PairChange>, pair: Seq<u8>) -> Option<PairChange> {
    if !frozen.contains_key(pair) {
        if now.contains_key(pair) {
            Some(now[pair])
        } else {
            None
        }
    } else if now.contains_key(pair) {
        if now[pair] == frozen[pair] {
            None
        } else {
            Some(now[pair])
        }
    } else if frozen[pair] == PairChange::Added {
        Some(PairChange::Removed)
    } else {
        None
    }
}

pub open spec fn is_rest(now: Map<Seq<u8>, PairChange>, frozen: Map<Seq<u8>, PairChange>, rest: Map<Seq<u8>, PairChange>) -> bool {
    forall|pair: Seq<u8>| #[trigger]
        rest.contains_key(pair) == (rest_change(now, frozen, pair) is Some) && (rest.contains_key(pair) ==> Some(rest[pair])
            == rest_change(now, frozen, pair))
}

spec fn rest_upto(now: Map<Seq<u8>, PairChange>, s: Seq<(Seq<u8>, PairChange)>, n: int, rest: Map<Seq<u8>, PairChange>) -> bool {
    is_rest(now, pairs::to_map(s.subrange(0, n)), rest)
}

/// Take the published changes out of an overlay.
fn settle(overlay: &mut CowMap<Vec<u8>, PairChange>, frozen: &CowMap<Vec<u8>, PairChange>)
    requires
        old(overlay).wf(),
        frozen.wf(),
    ensures
        final(overlay).wf(),
        is_rest(old(overlay)@, frozen@, final(overlay)@),
{
    let ghost now = overlay@;
    let ghost s = frozen.pairs();
    let list = frozen.iter();
    proof {
        frozen.lemma_wf();
    }
    let mut i: usize = 0;
    assert(s.subrange(0, 0) =~= Seq::<(Seq<u8>, PairChange)>::empty());
    assert(pairs::to_map(s.subrange(0, 0)) =~= Map::<Seq<u8>, PairChange>::empty());
    while i < list.len()
        invariant
            overlay.wf(),
            cow::entry_pairs(list@) == s,
            pairs::sorted(s),
            i <= list@.len(),
            rest_upto(now, s, i as int, overlay@),
        decreases list@.len() - i,
    {
        let (pair, change) = list[i];
        assert(s[i as int] == (pair@, *change)) by {
            assert(cow::entry_pairs(list@)[i as int] == (pair.rank(), change@));
        }
        let ghost before = overlay@;
        let ghost a = s.subrange(0, i as int);
        let ghost b = s.subrange(0, i + 1);
        let ghost key = pair@;
        proof {
            lemma_one_more(s, i as int);
            assert(before.contains_key(key) == (rest_change(now, pairs::to_map(a), key) is Some));
        }
        let current: Option<PairChange> = match overlay.get(pair.as_slice()) {
            Some(c) => Some(*c),
            None => None,
        };
        match current {
            Some(c) => {
                if c == *change {
                    let _ = overlay.remove(pair.as_slice());
                }
            },
            None => {
                if *change == PairChange::Added {
                    let _ = overlay.insert(bytes::copy_of(pair.as_slice()), PairChange::Removed);
                }
            },
        }
        proof {
            let fa = pairs::to_map(a);
            let fb = pairs::to_map(b);
            assert forall|p: Seq<u8>| #[trigger]
                overlay@.contains_key(p) == (rest_change(now, fb, p) is Some) && (overlay@.contains_key(p) ==> Some(overlay@[p])
                    == rest_change(now, fb, p)) by {
                assert(before.contains_key(p) == (rest_change(now, fa, p) is Some));
                assert(fb == fa.insert(key, *change));
                if p == key {
                    assert(!fa.contains_key(key));
                }
            }
        }
        i = i + 1;
    }
    assert(s.subrange(0, i as int) =~= s);
}

proof fn lemma_one_more(s: Seq<(Seq<u8>, PairChange)>, i: int)
    requires
        pairs::sorted(s),
        0 <= i < s.len(),
    ensures
        pairs::to_map(s.subrange(0, i + 1)) == pairs::to_map(s.subrange(0, i)).insert(s[i].0, s[i].1),
        !pairs::to_map(s.subrange(0, i)).contains_key(s[i].0),
{
    let a = s.subrange(0, i);
    let b = s.subrange(0, i + 1);
    assert(pairs::sorted(a));
    assert(pairs::sorted(b));
    let ma = pairs::to_map(a);
    let mb = pairs::to_map(b);
    assert(!ma.contains_key(s[i].0)) by {
        if ma.contains_key(s[i].0) {
            assert(pairs::has_key(a, s[i].0));
            let k = pairs::index_of(a, s[i].0);
            assert(a[k].0 == s[i].0);
            assert(bytes::lex_lt(s[k].0, s[i].0));
            bytes::lemma_lex_irreflexive(s[i].0);
        }
    }
    let more = ma.insert(s[i].0, s[i].1);
    assert forall|p: Seq<u8>|
        #![trigger mb.dom().contains(p)]
        #![trigger mb[p]]
        mb.dom().contains(p) == more.dom().contains(p) && (mb.dom().contains(p) ==> mb[p] == more[p]) by {
        if pairs::has_key(b, p) {
            let k = pairs::index_of(b, p);
            assert(b[k].0 == p);
            pairs::lemma_to_map_at(b, k);
            if k < i {
                assert(a[k] == b[k]);
                pairs::lemma_to_map_at(a, k);
            }
        }
        if pairs::has_key(a, p) {
            let k = pairs::index_of(a, p);
            assert(a[k].0 == p);
            assert(b[k] == a[k]);
            pairs::lemma_to_map_at(a, k);
            pairs::lemma_to_map_at(b, k);
        }
        pairs::lemma_to_map_at(b, i);
    }
    assert(mb =~= more);
}

/// The index after a run with changes that were set aside was taken over.
pub open spec fn run_taken(before: &SecIdx, after: &SecIdx, frozen: Map<Seq<u8>, PairChange>, run: PagedIndex, meta: RunMeta) -> bool {
    &&& after.wf()
    &&& after.generation == meta.generation
    &&& after.runs@.len() == before.runs@.len() + 1
    &&& after.runs@.drop_last() == before.runs@
    &&& after.runs@.last().meta == meta
    &&& after.runs@.last().index.rows() == run.rows()
    &&& is_rest(before.overlay@, frozen, after.overlay@)
}

impl SecIdx {
    fn take_frozen_run(&mut self, frozen: &CowMap<Vec<u8>, PairChange>, run: PagedIndex, meta: RunMeta)
        requires
            old(self).wf(),
            frozen.wf(),
            run.wf(),
        ensures
            run_taken(old(self), final(self), frozen@, run, meta),
    {
        let ghost before = self.runs@;
        self.generation = meta.generation;
        self.runs.push(Run { meta, index: Arc::new(run) });
        settle(&mut self.overlay, frozen);
        proof {
            assert(self.runs@.drop_last() =~= before);
            assert forall|i: int| 0 <= i < self.runs@.len() implies (#[trigger] self.runs@[i]).index.wf() by {
                if i < before.len() {
                    assert(self.runs@[i] == before[i]);
                }
            }
        }
    }
}

/// Publishing changes in the background changes no answer of the index, whatever
/// was committed while the run was written.
pub proof fn lemma_background_keeps_pairs(
    before: &SecIdx,
    after: &SecIdx,
    frozen: CowMap<Vec<u8>, PairChange>,
    run: PagedIndex,
    meta: RunMeta,
    pair: Seq<u8>,
)
    requires
        before.wf(),
        frozen.wf(),
        derived::holds_changes(frozen, meta.generation, run),
        run_taken(before, after, frozen@, run, meta),
        derived::ops_before(before.runs@, meta.generation),
        before.runs@.len() == 0 || (frozen@.contains_key(pair) ==> before.overlay@.contains_key(pair)),
        pair.len() > 1,
    ensures
        after.has_pair(pair) == before.has_pair(pair),
{
    derived::lemma_pair_after_run(before, after, frozen, meta.generation, run, pair);
    assert(after.overlay@.contains_key(pair) == (rest_change(before.overlay@, frozen@, pair) is Some));
    if before.runs@.len() == 0 {
        assert(secondary::run_values(before.runs@, pair).len() == 0);
    }
}

/// What became of a run that was written in the background.
#[derive(Clone, Copy, PartialEq, Eq, Structural, Debug)]
pub enum Publication {
    /// The index has it.
    Done,
    /// The index or the freeze is gone; the file is to be deleted.
    Obsolete,
}

impl FrozenBoard {
    /// Whether a run that was written may be published: the index is there, and
    /// the freeze still stands. The result is the level of the run.
    pub fn may_publish(&self, st: &State, table: &str, column: &str, ticket: u64) -> (r: Option<u8>)
        ensures
            match state::slot_of(st.secondary@, table@, column@) {
                None => r is None,
                Some(k) => if still_frozen(self.frozen@, table@, column@, ticket) {
                    r == Some(
                        if st.secondary@[k].index.runs@.len() == 0 {
                            DERIVED_BASE_LEVEL
                        } else {
                            0u8
                        },
                    )
                } else {
                    r is None
                },
            },
    {
        match st.slot(table, column) {
            None => None,
            Some(k) => {
                if self.find(table, column, ticket).is_none() {
                    return None;
                }
                if st.secondary[k].index.runs.len() == 0 {
                    Some(DERIVED_BASE_LEVEL)
                } else {
                    Some(0)
                }
            },
        }
    }

    /// The position of a freeze.
    pub fn find(&self, table: &str, column: &str, ticket: u64) -> (r: Option<usize>)
        ensures
            r is Some <==> still_frozen(self.frozen@, table@, column@, ticket),
            r matches Some(i) ==> i < self.frozen@.len() && is_for(self.frozen@[i as int], table@, column@) && self.frozen@[i as int].ticket
                == ticket,
    {
        let mut i: usize = 0;
        while i < self.frozen.len()
            invariant
                i <= self.frozen@.len(),
                forall|k: int| 0 <= k < i ==> !(is_for(#[trigger] self.frozen@[k], table@, column@) && self.frozen@[k].ticket == ticket),
            decreases self.frozen@.len() - i,
        {
            let f = &self.frozen[i];
            if f.ticket == ticket && same_text(f.table.as_str(), table) && same_text(f.column.as_str(), column) {
                assert(is_for(self.frozen@[i as int], table@, column@) && self.frozen@[i as int].ticket == ticket);
                return Some(i);
            }
            i = i + 1;
        }
        None
    }

    /// Take over a run whose manifest is published.
    pub fn adopt(&mut self, st: &mut State, table: &str, column: &str, ticket: u64, run: PagedIndex, meta: RunMeta) -> (r: Result<
        (),
        Error,
    >)
        requires
            old(self).wf(),
            old(st).wf(),
            run.wf(),
        ensures
            match state::slot_of(old(st).secondary@, table@, column@) {
                None => {
                    &&& r is Err && r->Err_0@ == ErrorView::Corrupt("secondary index disappeared during background publication"@)
                    &&& *final(st) == *old(st) && final(self).frozen@ == old(self).frozen@
                },
                Some(k) => if !still_frozen(old(self).frozen@, table@, column@, ticket) {
                    &&& r is Err && r->Err_0@ == ErrorView::Corrupt(
                        "secondary frozen generation changed during background publication"@,
                    )
                    &&& *final(st) == *old(st) && final(self).frozen@ == old(self).frozen@
                } else {
                    &&& r is Ok
                    &&& *final(st) == (State { secondary: final(st).secondary, ..*old(st) })
                    &&& final(st).secondary@.len() == old(st).secondary@.len()
                    &&& forall|i: int| 0 <= i < final(st).secondary@.len() && i != k ==> #[trigger] final(st).secondary@[i] == old(
                        st,
                    ).secondary@[i]
                    &&& final(st).secondary@[k].table == old(st).secondary@[k].table
                    &&& final(st).secondary@[k].column == old(st).secondary@[k].column
                    &&& exists|x: int|
                        0 <= x < old(self).frozen@.len() && is_for(#[trigger] old(self).frozen@[x], table@, column@) && old(
                            self,
                        ).frozen@[x].ticket == ticket && final(self).frozen@ == old(self).frozen@.remove(x) && run_taken(
                            &old(st).secondary@[k].index,
                            &final(st).secondary@[k].index,
                            old(self).frozen@[x].changes@,
                            run,
                            meta,
                        )
                },
            },
    {
        let k: usize = match st.slot(table, column) {
            None => {
                return Err(corrupt("secondary index disappeared during background publication"));
            },
            Some(k) => k,
        };
        let x: usize = match self.find(table, column, ticket) {
            None => {
                return Err(corrupt("secondary frozen generation changed during background publication"));
            },
            Some(x) => x,
        };
        let ghost before = self.frozen@;
        assert(before[x as int].wf());
        assert(st.secondary@[k as int].index.wf());
        let f = self.frozen.remove(x);
        let slot = &mut st.secondary[k];
        slot.index.take_frozen_run(&f.changes, run, meta);
        assert(is_for(before[x as int], table@, column@));
        Ok(())
    }

    /// Forget what was set aside of an index that is dropped or made anew.
    pub fn forget(&mut self, table: &str, column: &str)
        requires
            old(self).wf(),
        ensures
            final(self).wf(),
            !has_frozen(final(self).frozen@, table@, column@),
            forall|i: int|
                0 <= i < old(self).frozen@.len() && !is_for(#[trigger] old(self).frozen@[i], table@, column@) ==> final(self).frozen@.contains(
                    old(self).frozen@[i],
                ),
            forall|i: int| 0 <= i < final(self).frozen@.len() ==> old(self).frozen@.contains(#[trigger] final(self).frozen@[i]),
    {
        let ghost start = self.frozen@;
        let mut done: bool = false;
        while !done
            invariant
                self.wf(),
                forall|i: int|
                    0 <= i < start.len() && !is_for(#[trigger] start[i], table@, column@) ==> self.frozen@.contains(start[i]),
                forall|i: int| 0 <= i < self.frozen@.len() ==> start.contains(#[trigger] self.frozen@[i]),
                done ==> !has_frozen(self.frozen@, table@, column@),
            decreases self.frozen@.len(), (if done { 0int } else { 1int }),
        {
            match self.position(table, column) {
                None => {
                    done = true;
                },
                Some(at) => {
                    let ghost before = self.frozen@;
                    let _ = self.frozen.remove(at);
                    proof {
                        let now = self.frozen@;
                        assert(now == before.remove(at as int));
                        assert forall|i: int| 0 <= i < start.len() && !is_for(#[trigger] start[i], table@, column@) implies now.contains(
                            start[i],
                        ) by {
                            assert(before.contains(start[i]));
                            let k = before.index_of(start[i]);
                            if k < at {
                                assert(now[k] == start[i]);
                            } else {
                                assert(k != at);
                                assert(now[k - 1] == start[i]);
                            }
                        }
                        assert forall|i: int| 0 <= i < now.len() implies start.contains(#[trigger] now[i]) && now[i].wf() by {
                            if i < at {
                                assert(now[i] == before[i]);
                            } else {
                                assert(now[i] == before[i + 1]);
                            }
                        }
                    }
                },
            }
        }
    }
}

} // verus!
