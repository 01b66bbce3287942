//! The way of a commit: validation, the log, publication and what follows.
//!
//! The log and the disk are outside: each step here takes what they reported
//! and says what to do next.

use crate::commit::{self, validate_prepared_commit, Validated};
use crate::error::{Error, ErrorView};
use crate::memory::{self, GlobalMemoryStats, MemoryGovernor};
use crate::model;
use crate::options::Durability;
use crate::prepare::{self, prepare_commit, PreparedCommit, StagedTable};
use crate::publish::{self, Published};
use crate::segment;
use crate::staged::{self, PreparedTable};
use crate::state::State;
use crate::text::{self, decimal_text};
use crate::unique;
use crate::wal::{self, encode_commit, WalRecord};
use vstd::prelude::*;
use vstd::string::*;
use vstd::utf8::*;

verus! {

// ---- Errors that fence writes -----------------------------------------------

/// What a write is told once an earlier publication may not be durable.
pub open spec fn fenced(message: Seq<char>) -> ErrorView {
    ErrorView::CommitUnknown(
        "database writes are fenced until reopen after an uncertain canonical publication: "@ + message,
    )
}

/// Refuse writes while the durability of an earlier publication is unknown.
pub fn ensure_canonical_writable(fence: &Option<String>) -> (r: Result<(), Error>)
    ensures
        match *fence {
            None => r is Ok,
            Some(m) => r is Err && r->Err_0@ == fenced(m@),
        },
{
    match fence {
        None => Ok(()),
        Some(m) => Err(
            Error::CommitUnknown(
                "database writes are fenced until reopen after an uncertain canonical publication: ".to_owned().concat(m.as_str()),
            ),
        ),
    }
}

/// The fence that stands after the log could not be synced: a later sync might
/// acknowledge a commit that depends on lost bytes.
pub fn fence_after_wal_sync_failure(error: &str) -> (r: String)
    ensures
        r@ == "WAL sync failed; the durability of the last commit group is unknown: "@ + error@,
{
    "WAL sync failed; the durability of the last commit group is unknown: ".to_owned().concat(error)
}

/// The fence and the error that stand after a file was put in its place but its
/// directory could not be synced.
pub fn publication_sync_error(operation: &str, error: &str) -> (r: (String, Error))
    ensures
        r.0@ == operation@ + " was renamed into place, but syncing its directory failed: "@ + error@,
        r.1@ == ErrorView::CommitUnknown(r.0@),
{
    let message = operation.to_owned().concat(" was renamed into place, but syncing its directory failed: ").concat(error);
    let copy = message.clone();
    (message, Error::CommitUnknown(copy))
}

/// What the background writer of checkpoints is at.
pub struct BackgroundStatus {
    pub running: bool,
    pub last_error: Option<String>,
    /// The failure left the durability of a publication unknown.
    pub commit_unknown: bool,
}

impl BackgroundStatus {
    /// The error that the next writer is told.
    pub open spec fn pending(self) -> Option<ErrorView> {
        match self.last_error {
            Some(m) => if self.commit_unknown {
                Some(ErrorView::CommitUnknown(m@))
            } else {
                Some(ErrorView::Io("background checkpoint failed: "@ + m@))
            },
            None => None,
        }
    }

    /// Report a failure of the background writer, once, to a writer that has
    /// not reached its own durability point.
    pub fn take_error(&mut self) -> (r: Result<(), Error>)
        ensures
            final(self).running == old(self).running,
            old(self).running ==> r is Ok && *final(self) == *old(self),
            !old(self).running ==> match old(self).pending() {
                None => r is Ok && *final(self) == *old(self),
                Some(e) => r is Err && r->Err_0@ == e && final(self).last_error is None && !final(self).commit_unknown,
            },
    {
        if self.running {
            return Ok(());
        }
        match self.last_error.take() {
            None => Ok(()),
            Some(message) => {
                if self.commit_unknown {
                    self.commit_unknown = false;
                    Err(Error::CommitUnknown(message))
                } else {
                    Err(Error::Io("background checkpoint failed: ".to_owned().concat(message.as_str())))
                }
            },
        }
    }

    /// Keep a failure of the maintenance after a commit for the next writer: the
    /// commit itself stands.
    pub fn defer(&mut self, error: &str, commit_unknown: bool)
        ensures
            final(self).running == old(self).running,
            final(self).commit_unknown == commit_unknown,
            final(self).last_error matches Some(m) && m@ == "post-commit maintenance failed: "@ + error@,
    {
        self.commit_unknown = commit_unknown;
        self.last_error = Some("post-commit maintenance failed: ".to_owned().concat(error));
    }
}

// ---- Which way a commit takes -----------------------------------------------

pub enum CommitRoute {
    /// There is nothing to commit.
    Unchanged(u64),
    /// The commit goes by itself.
    Single(PreparedCommit),
    /// The commit may join others.
    Coordinated(PreparedCommit),
}

/// Whether a commit may join others in one batch: no table of it has a text or
/// a vector index.
pub open spec fn may_coordinate(staged: Seq<PreparedTable>) -> bool {
    forall|i: int|
        0 <= i < staged.len() ==> (#[trigger] staged[i]).schema@.text_indexes.len() == 0 && staged[i].schema@.vector_indexes.len() == 0
}

pub fn is_coordinated_insert_candidate(prepared: &PreparedCommit) -> (r: bool)
    ensures
        r == may_coordinate(prepared.staged@),
{
    let mut i: usize = 0;
    while i < prepared.staged.len()
        invariant
            i <= prepared.staged@.len(),
            forall|j: int|
                0 <= j < i ==> (#[trigger] prepared.staged@[j]).schema@.text_indexes.len() == 0
                    && prepared.staged@[j].schema@.vector_indexes.len() == 0,
        decreases prepared.staged@.len() - i,
    {
        let s = &prepared.staged[i].schema;
        if s.text_indexes.len() > 0 || s.vector_indexes.len() > 0 {
            assert(prepared.staged@[i as int].schema@.text_indexes.len() > 0 || prepared.staged@[i as int].schema@.vector_indexes.len() > 0);
            return false;
        }
        i = i + 1;
    }
    true
}

pub open spec fn nothing_staged(tables: Seq<StagedTable>) -> bool {
    forall|i: int| 0 <= i < tables.len() ==> (#[trigger] tables[i]).operations@.len() == 0
}

fn all_empty(tables: &Vec<StagedTable>) -> (r: bool)
    ensures
        r == nothing_staged(tables@),
{
    let mut i: usize = 0;
    while i < tables.len()
        invariant
            i <= tables@.len(),
            forall|j: int| 0 <= j < i ==> (#[trigger] tables@[j]).operations@.len() == 0,
        decreases tables@.len() - i,
    {
        if tables[i].operations.len() > 0 {
            return false;
        }
        i = i + 1;
    }
    true
}

/// Begin a commit: refuse it where nothing may be written, and prepare it.
pub fn commit_staged(
    st: &State,
    read_only: bool,
    fence: &Option<String>,
    snapshot: u64,
    tables: Vec<StagedTable>,
    index_capacity: usize,
) -> (r: Result<CommitRoute, Error>)
    requires
        st.inv(),
        prepare::all_wf(tables@),
    ensures
        read_only ==> r is Err && r->Err_0@ == ErrorView::ReadOnly,
        !read_only ==> match *fence {
            Some(m) => r is Err && r->Err_0@ == fenced(m@),
            None => if nothing_staged(tables@) {
                r matches Ok(CommitRoute::Unchanged(v)) && v == st.committed_version
            } else {
                match r {
                    Ok(CommitRoute::Unchanged(_)) => false,
                    Ok(CommitRoute::Single(p)) => prepare::is_prepared(st, snapshot, tables@, index_capacity as int, p) && !may_coordinate(
                        p.staged@,
                    ),
                    Ok(CommitRoute::Coordinated(p)) => prepare::is_prepared(st, snapshot, tables@, index_capacity as int, p)
                        && may_coordinate(p.staged@),
                    Err(e) => prepare::prepare_error(st, tables@, snapshot, index_capacity as int, e@),
                }
            },
        },
{
    if read_only {
        return Err(Error::ReadOnly);
    }
    match ensure_canonical_writable(fence) {
        Ok(()) => {},
        Err(e) => {
            return Err(e);
        },
    }
    if all_empty(&tables) {
        return Ok(CommitRoute::Unchanged(st.committed_version));
    }
    match prepare_commit(st, snapshot, tables, index_capacity) {
        Err(e) => Err(e),
        Ok(prepared) => {
            if is_coordinated_insert_candidate(&prepared) {
                Ok(CommitRoute::Coordinated(prepared))
            } else {
                Ok(CommitRoute::Single(prepared))
            }
        },
    }
}

// ---- A single commit --------------------------------------------------------

/// A commit that only waits for its log record to be written.
pub struct PlannedCommit {
    pub version: u64,
    pub validated: Validated,
    pub record: WalRecord,
    pub incoming_index_bytes: usize,
}

impl PlannedCommit {
    /// The plan can be carried out.
    pub open spec fn ready(&self) -> bool {
        &&& staged::tables_wf(self.validated.staged@)
        &&& publish::previous_fits(self.validated.staged@, self.validated.previous@)
        &&& unique::names_fit(model::views(self.validated.staged@))
    }
}

/// Why a transaction cannot be committed.
pub open spec fn commit_error(st: &State, prepared: PreparedCommit, e: ErrorView) -> bool {
    ||| commit::check_error(st, prepared.staged@, prepared.snapshot, e)
    ||| exists|checked: Seq<Vec<publish::Previous>>| #[trigger]
        commit::all_checked(st, prepared.staged@, checked, prepared.snapshot) && commit::rule_error(
            st,
            commit::final_tables(st, prepared.staged@, checked, prepared.snapshot),
            e,
        )
}

/// Validate a commit, give it the next version and make its log record. The
/// state does not change until the record is written.
pub fn plan_commit(st: &State, prepared: PreparedCommit) -> (r: Result<PlannedCommit, Error>)
    requires
        st.inv(),
        prepared.wf(),
        st.committed_version < u64::MAX,
    ensures
        match r {
            Ok(p) => {
                &&& p.version == st.committed_version + 1
                &&& p.validated.stands_for(st, prepared.staged@, prepared.snapshot)
                &&& commit::rules_kept(st, model::views(p.validated.staged@))
                &&& p.record@ == wal::record_view(st, model::views(p.validated.staged@), p.version)
                &&& p.incoming_index_bytes == prepared.incoming_index_bytes
                &&& p.ready()
            },
            Err(e) => commit_error(st, prepared, e@),
        },
{
    let ghost start = prepared;
    let PreparedCommit { snapshot, staged, incoming_index_bytes } = prepared;
    let version: u64 = st.committed_version + 1;
    match validate_prepared_commit(st, snapshot, staged) {
        Err(e) => Err(e),
        Ok(validated) => {
            let record = encode_commit(st, version, &validated.staged);
            proof {
                lemma_names_fit(st, start.staged@, validated.previous@, snapshot);
            }
            Ok(PlannedCommit { version, validated, record, incoming_index_bytes })
        },
    }
}

pub proof fn lemma_names_fit(st: &State, staged: Seq<PreparedTable>, checked: Seq<Vec<publish::Previous>>, snapshot: u64)
    requires
        st.wf(),
        commit::all_checked(st, staged, checked, snapshot),
    ensures
        unique::names_fit(commit::final_tables(st, staged, checked, snapshot)),
{
    let all = commit::final_tables(st, staged, checked, snapshot);
    assert forall|i: int| 0 <= i < all.len() implies encode_utf8((#[trigger] all[i]).name).len() <= u32::MAX && forall|k: int|
        0 <= k < all[i].schema.indexes.len() ==> encode_utf8((#[trigger] all[i].schema.indexes[k]).column).len() <= u32::MAX by {
        assert(st.table_view(staged[i].name@) == Some(staged[i].schema@));
        st.lemma_table(staged[i].name@);
    }
}

/// What a writer has added since the last checkpoint.
pub struct WriterLoad {
    pub memtable_bytes: u64,
}

/// Publish a commit whose log record is written. The second result says whether
/// enough has gathered for a checkpoint.
pub fn finish_prepared_commit(
    st: &mut State,
    planned: &PlannedCommit,
    load: &mut WriterLoad,
    governor: &mut MemoryGovernor,
    memtable_max_bytes: u64,
) -> (r: (Published, bool))
    requires
        old(st).wf(),
        planned.ready(),
        old(governor).wf(),
    ensures
        publish::published(
            old(st),
            final(st),
            model::views(planned.validated.staged@),
            publish::previous_views(planned.validated.previous@),
            planned.version,
        ),
        ({
            let list = publish::steps(
                model::views(planned.validated.staged@),
                publish::previous_views(planned.validated.previous@),
            );
            &&& model::views(r.0.events@) == publish::events_of(list)
            &&& r.0.added == segment::capped64(publish::added_bytes(list))
        }),
        ({
            let obsolete = publish::all_obsolete(
                model::views(planned.validated.staged@),
                publish::previous_views(planned.validated.previous@),
                planned.validated.staged@.len() as int,
            );
            r.0.obsolete_operations == segment::capped64(obsolete.0) && r.0.obsolete_bytes == segment::capped64(obsolete.1)
        }),
        final(load).memtable_bytes == segment::capped64(old(load).memtable_bytes + r.0.added),
        r.1 == (final(load).memtable_bytes >= memtable_max_bytes),
        final(governor).wf(),
        *final(governor) == old(governor).with_delta(planned.incoming_index_bytes as int),
{
    proof {
        let all = model::views(planned.validated.staged@);
        assert forall|i: int| 0 <= i < planned.validated.staged@.len() implies encode_utf8(
            (#[trigger] planned.validated.staged@[i]).name@,
        ).len() <= u32::MAX by {
            assert(all[i].name == planned.validated.staged@[i].name@);
        }
    }
    let published = st.publish(planned.version, &planned.validated.staged, &planned.validated.previous);
    load.memtable_bytes = load.memtable_bytes.saturating_add(published.added);
    governor.add_index_delta_bytes(planned.incoming_index_bytes);
    let full: bool = load.memtable_bytes >= memtable_max_bytes;
    (published, full)
}

/// What a writer is told of a published commit, given how its sync went.
pub fn commit_outcome(version: u64, sync_error: &Option<String>) -> (r: Result<u64, Error>)
    ensures
        match *sync_error {
            None => r == Ok::<u64, Error>(version),
            Some(e) => r is Err && r->Err_0@ == ErrorView::CommitUnknown(
                "version "@ + text::decimal(version as nat) + " was published, but syncing its WAL group failed: "@ + e@,
            ),
        },
{
    match sync_error {
        None => Ok(version),
        Some(e) => Err(
            Error::CommitUnknown(
                "version ".to_owned().concat(decimal_text(version).as_str()).concat(
                    " was published, but syncing its WAL group failed: ",
                ).concat(e.as_str()),
            ),
        ),
    }
}

/// Whether a commit waits for the disk before it is acknowledged.
pub fn sync_due(durability: Durability) -> (r: bool)
    ensures
        r == (durability == Durability::Safe),
{
    durability == Durability::Safe
}

// ---- Room in the index deltas -----------------------------------------------

/// What stands in the way of a commit that the index deltas have no room for.
pub struct Pressure {
    /// The commit still does not fit.
    pub exceeds: bool,
    /// A group of commits waits for its sync.
    pub sync_group: bool,
    pub derived_running: bool,
    /// Changes of derived indexes that are in no run, or frozen.
    pub derived_pending: bool,
    /// Publishing derived indexes was tried and there was nothing to do.
    pub derived_tried: bool,
    pub checkpoint_frozen: bool,
    /// A checkpoint was tried and there was nothing to do.
    pub checkpoint_tried: bool,
}

#[derive(Debug, Clone, Copy, PartialEq, Eq, Structural)]
pub enum Relief {
    Proceed,
    WaitSyncGroup,
    WaitDerived,
    ScheduleDerived,
    WaitCheckpoint,
    ScheduleCheckpoint,
    Refuse,
}

/// What to do next for a commit that may not fit. After each wait the commit is
/// validated again.
pub open spec fn relief_for(p: Pressure) -> Relief {
    if !p.exceeds {
        Relief::Proceed
    } else if p.sync_group {
        Relief::WaitSyncGroup
    } else if p.derived_running {
        Relief::WaitDerived
    } else if p.derived_pending && !p.derived_tried {
        Relief::ScheduleDerived
    } else if p.checkpoint_frozen {
        Relief::WaitCheckpoint
    } else if !p.checkpoint_tried {
        Relief::ScheduleCheckpoint
    } else {
        Relief::Refuse
    }
}

pub fn relieve(p: &Pressure) -> (r: Relief)
    ensures
        r == relief_for(*p),
{
    if !p.exceeds {
        Relief::Proceed
    } else if p.sync_group {
        Relief::WaitSyncGroup
    } else if p.derived_running {
        Relief::WaitDerived
    } else if p.derived_pending && !p.derived_tried {
        Relief::ScheduleDerived
    } else if p.checkpoint_frozen {
        Relief::WaitCheckpoint
    } else if !p.checkpoint_tried {
        Relief::ScheduleCheckpoint
    } else {
        Relief::Refuse
    }
}

/// A commit that does not fit is refused only once nothing is left to wait for,
/// publish or freeze; one that fits is never held up.
pub proof fn lemma_refused_last(p: Pressure)
    ensures
        relief_for(p) == Relief::Refuse <==> p.exceeds && !p.sync_group && !p.derived_running && (!p.derived_pending
            || p.derived_tried) && !p.checkpoint_frozen && p.checkpoint_tried,
        relief_for(p) == Relief::Proceed <==> !p.exceeds,
{
}

/// What a commit is told that still does not fit.
pub fn refused_for_room() -> (e: Error)
    ensures
        e@ == ErrorView::MemoryLimit(
            "index tombstones still fill the delta pool after consolidation; compact the database or raise memory.index_delta_pool_bytes"@,
        ),
{
    Error::MemoryLimit(
        "index tombstones still fill the delta pool after consolidation; compact the database or raise memory.index_delta_pool_bytes".to_owned(),
    )
}

// ---- After a commit ---------------------------------------------------------

/// The share of the delta pool that derived changes must fill to be worth a run.
pub const DERIVED_PUBLICATION_MIN_DIVISOR: u64 = 16;

/// Commits between two measurements of the derived changes.
pub const DERIVED_BYTES_SAMPLE_COMMITS: u64 = 256;

/// Whether derived changes should be published in the background: the pool is
/// half full, and they are worth a run.
pub fn derived_schedule_needed(memory: &GlobalMemoryStats, derived_bytes: usize) -> (r: bool)
    ensures
        r == (memory.index_delta_bytes >= memory.index_delta_capacity_bytes / 2 && derived_bytes >= memory::larger(
            memory.index_delta_capacity_bytes as int / 16,
            1,
        )),
{
    let share: u64 = memory.index_delta_capacity_bytes / DERIVED_PUBLICATION_MIN_DIVISOR;
    let least: u64 = if share > 1 {
        share
    } else {
        1
    };
    memory.index_delta_bytes >= memory.index_delta_capacity_bytes / 2 && derived_bytes as u64 >= least
}

/// The last measured size of the derived changes.
pub struct DerivedSample {
    pub bytes: usize,
    pub sampled_at: u64,
}

impl DerivedSample {
    /// Whether the sizes are to be measured again at a version.
    pub open spec fn stale(self, version: u64) -> bool {
        version >= memory::saturated(self.sampled_at + 256, u64::MAX as int)
    }

    pub fn is_stale(&self, version: u64) -> (r: bool)
        ensures
            r == self.stale(version),
    {
        version >= self.sampled_at.saturating_add(DERIVED_BYTES_SAMPLE_COMMITS)
    }

    /// The size to go by: the last measurement, or `measured` where that is due.
    pub fn sampled_derived_delta_bytes(&mut self, version: u64, measured: usize) -> (r: usize)
        ensures
            old(self).stale(version) ==> r == measured && *final(self) == (DerivedSample { bytes: measured, sampled_at: version }),
            !old(self).stale(version) ==> r == old(self).bytes && *final(self) == *old(self),
    {
        if self.is_stale(version) {
            self.bytes = measured;
            self.sampled_at = version;
        }
        self.bytes
    }

    /// The measured changes were published.
    pub fn reset_derived_delta_sample(&mut self, version: u64)
        ensures
            *final(self) == (DerivedSample { bytes: 0, sampled_at: version }),
    {
        self.bytes = 0;
        self.sampled_at = version;
    }
}

/// What a commit leaves to be scheduled.
pub struct AfterCommit {
    pub maintenance_needed: bool,
    pub derived_needed: bool,
    pub derived_running: bool,
    pub memtable_bytes: u64,
    pub memtable_max_bytes: u64,
    pub checkpoint_frozen: bool,
}

impl AfterCommit {
    pub open spec fn wants_derived(self) -> bool {
        self.derived_needed && !self.derived_running
    }

    /// A checkpoint waits for the derived worker, which holds the only
    /// reservation, and for the checkpoint before it.
    pub open spec fn wants_checkpoint(self) -> bool {
        &&& self.maintenance_needed || self.derived_needed
        &&& self.memtable_bytes >= self.memtable_max_bytes
        &&& !self.derived_running
        &&& !self.checkpoint_frozen
    }

    pub fn schedule_derived(&self) -> (r: bool)
        ensures
            r == self.wants_derived(),
    {
        self.derived_needed && !self.derived_running
    }

    pub fn schedule_checkpoint(&self) -> (r: bool)
        ensures
            r == self.wants_checkpoint(),
    {
        (self.maintenance_needed || self.derived_needed) && self.memtable_bytes >= self.memtable_max_bytes && !self.derived_running
            && !self.checkpoint_frozen
    }
}

// ---- Groups of commits ------------------------------------------------------

/// Counters of log syncs.
#[derive(Clone, Copy)]
pub struct SyncCounters {
    pub syncs: u64,
    pub nanos: u64,
    pub bytes: u64,
    pub max_group_commits: u64,
    pub max_group_bytes: u64,
    pub grouped_commits: u64,
}

pub open spec fn wrapped(n: int) -> int {
    n % 0x1_0000_0000_0000_0000
}

impl SyncCounters {
    /// Count one sync of a group. The sums wrap; the maxima do not.
    pub fn record_wal_sync(&mut self, nanos: u64, commits: u64, bytes: u64)
        ensures
            counted_sync(*old(self), *final(self), nanos, commits, bytes),
    {
        self.syncs = self.syncs.wrapping_add(1);
        self.nanos = self.nanos.wrapping_add(nanos);
        self.bytes = self.bytes.wrapping_add(bytes);
        if commits > self.max_group_commits {
            self.max_group_commits = commits;
        }
        if bytes > self.max_group_bytes {
            self.max_group_bytes = bytes;
        }
        if commits > 1 {
            self.grouped_commits = self.grouped_commits.wrapping_add(commits);
        }
    }
}

/// Whether the leader of a group of commits gives others a moment to join before
/// the log is synced. A commit without company is not delayed.
pub fn leader_waits(waiters: u64, delay_us: u64) -> (r: bool)
    ensures
        r == (waiters > 0 && delay_us > 0),
{
    waiters > 0 && delay_us > 0
}

/// What a sync of the log came to, for every commit of its group.
pub struct GroupOutcome {
    pub result: Result<(), String>,
    /// Why nothing may be written any more.
    pub fence: Option<String>,
}

/// The leader's sync of the log has ended. After one that failed, nothing may be
/// written before the database is opened again.
pub fn finish_wal_sync(counters: &mut SyncCounters, nanos: u64, commits: u64, bytes: u64, error: Option<String>) -> (r: GroupOutcome)
    ensures
        counted_sync(*old(counters), *final(counters), nanos, commits, bytes),
        match error {
            None => r.result is Ok && r.fence is None,
            Some(m) => r.result is Err && r.result->Err_0@ == m@ && r.fence is Some && r.fence->0@
                == "WAL sync failed; the durability of the last commit group is unknown: "@ + m@,
        },
{
    counters.record_wal_sync(nanos, commits, bytes);
    match error {
        None => GroupOutcome { result: Ok(()), fence: None },
        Some(m) => {
            let fence = fence_after_wal_sync_failure(m.as_str());
            GroupOutcome { result: Err(m), fence: Some(fence) }
        },
    }
}

pub open spec fn counted_sync(before: SyncCounters, after: SyncCounters, nanos: u64, commits: u64, bytes: u64) -> bool {
    &&& after.syncs == wrapped(before.syncs + 1)
    &&& after.nanos == wrapped(before.nanos + nanos)
    &&& after.bytes == wrapped(before.bytes + bytes)
    &&& after.max_group_commits == memory::larger(before.max_group_commits as int, commits as int)
    &&& after.max_group_bytes == memory::larger(before.max_group_bytes as int, bytes as int)
    &&& after.grouped_commits == (if commits > 1 {
        wrapped(before.grouped_commits + commits)
    } else {
        before.grouped_commits as int
    })
}

/// A duration in nanoseconds as a counter holds it.
pub fn elapsed_nanos(nanos: u128) -> (r: u64)
    ensures
        r == segment::capped64(nanos as int),
{
    if nanos > u64::MAX as u128 {
        u64::MAX
    } else {
        nanos as u64
    }
}

/// How often a leader still waits for company after it was last seen.
pub const COALESCE_BUDGET: u32 = 8;

/// Whether the leader of a batch waits a moment for others to join. Contention
/// is remembered for a few batches, over the gaps between them.
pub fn should_coalesce_safe_batch(durability: Durability, delay_us: u64, active_writers: u64, budget: &mut u32) -> (r: bool)
    ensures
        ({
            let waits = durability == Durability::Safe && delay_us > 0;
            &&& r == (waits && (active_writers > 1 || *old(budget) > 0))
            &&& *final(budget) == (if waits && active_writers > 1 {
                COALESCE_BUDGET as int
            } else if waits && *old(budget) > 0 {
                *old(budget) - 1
            } else {
                *old(budget) as int
            })
        }),
{
    if durability != Durability::Safe || delay_us == 0 {
        return false;
    }
    if active_writers > 1 {
        *budget = COALESCE_BUDGET;
        return true;
    }
    if *budget > 0 {
        *budget = *budget - 1;
        return true;
    }
    false
}

/// The commits that wait for a leader, by ticket, in their order.
pub struct CommitQueue {
    pub active: bool,
    pub waiting: Vec<u64>,
}

impl CommitQueue {
    /// Someone leads whenever something waits.
    pub open spec fn wf(&self) -> bool {
        !self.active ==> self.waiting@.len() == 0
    }

    /// Join the queue. The first to join leads.
    pub fn join(&mut self, ticket: u64) -> (leads: bool)
        requires
            old(self).wf(),
        ensures
            final(self).wf(),
            final(self).active,
            final(self).waiting@ == old(self).waiting@.push(ticket),
            leads == !old(self).active,
    {
        let leads: bool = !self.active;
        self.active = true;
        self.waiting.push(ticket);
        leads
    }

    /// The leader takes the commits at the front, at most `max`.
    pub fn take_batch(&mut self, max: usize) -> (r: Vec<u64>)
        requires
            old(self).wf(),
            old(self).active,
        ensures
            final(self).wf(),
            final(self).active,
            r@.len() == (if old(self).waiting@.len() < max { old(self).waiting@.len() as int } else { max as int }),
            r@ + final(self).waiting@ == old(self).waiting@,
    {
        let ghost all = self.waiting@;
        let n: usize = if self.waiting.len() < max {
            self.waiting.len()
        } else {
            max
        };
        let mut batch: Vec<u64> = Vec::new();
        let mut rest: Vec<u64> = Vec::new();
        let mut i: usize = 0;
        while i < self.waiting.len()
            invariant
                self.active,
                all == self.waiting@,
                i <= all.len(),
                n <= all.len(),
                batch@ == all.subrange(0, if i < n { i as int } else { n as int }),
                rest@ == all.subrange(n as int, if i < n { n as int } else { i as int }),
            decreases all.len() - i,
        {
            let t: u64 = self.waiting[i];
            if i < n {
                batch.push(t);
                assert(all.subrange(0, i + 1) =~= all.subrange(0, i as int).push(t));
            } else {
                rest.push(t);
                assert(all.subrange(n as int, i + 1) =~= all.subrange(n as int, i as int).push(t));
            }
            i = i + 1;
        }
        self.waiting = rest;
        assert(batch@ + self.waiting@ =~= all);
        batch
    }

    /// The leader is done: the commit at the front leads next, or nobody does.
    pub fn hand_over(&mut self) -> (r: Option<u64>)
        requires
            old(self).wf(),
        ensures
            final(self).wf(),
            final(self).waiting@ == old(self).waiting@,
            match r {
                Some(t) => old(self).waiting@.len() > 0 && t == old(self).waiting@[0] && final(self).active == old(self).active,
                None => old(self).waiting@.len() == 0 && !final(self).active,
            },
    {
        if self.waiting.len() > 0 {
            Some(self.waiting[0])
        } else {
            self.active = false;
            None
        }
    }
}

} // verus!
