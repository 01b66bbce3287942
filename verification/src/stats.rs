//! What maintenance and queries did, in numbers.

use crate::options::QueryMemoryStats;
use crate::record;
use crate::state::{SecSlot, State};
use vstd::prelude::*;

verus! {

/// Counts since the database was opened. Times are in nanoseconds. Counts wrap
/// around.
#[derive(Clone, Copy, PartialEq, Eq, Structural, Debug)]
pub struct MaintenanceCounters {
    /// Successful commits that changed something.
    pub commits: u64,
    /// The time inside commits, waits and checkpoints that they led to included.
    pub commit_time: u64,
    /// The time spent waiting for the commit lock.
    pub commit_lock_wait_time: u64,
    /// The time spent on conflict checks, encoding, validation and memory sizing.
    pub commit_prepare_time: u64,
    /// The time spent on the log, its syncs included.
    pub commit_wal_time: u64,
    /// The time spent on publication in memory.
    pub commit_apply_time: u64,
    pub checkpoints: u64,
    pub checkpoint_time: u64,
    pub automatic_compactions: u64,
    pub automatic_compaction_time: u64,
    pub automatic_compaction_failures: u64,
    pub automatic_compaction_bytes_reclaimed: u64,
    /// Runs of the primary index that were promoted to a higher level.
    pub primary_run_compactions: u64,
    pub primary_run_compaction_time: u64,
    pub primary_run_compaction_bytes_read: u64,
    pub primary_run_compaction_bytes_written: u64,
    /// What checkpoints wrote of the primary index.
    pub primary_checkpoint_bytes_written: u64,
    pub secondary_run_compactions: u64,
    pub secondary_run_compaction_time: u64,
    pub secondary_run_compaction_bytes_read: u64,
    pub secondary_run_compaction_bytes_written: u64,
    pub secondary_checkpoint_bytes_written: u64,
    pub text_run_compactions: u64,
    pub text_run_compaction_time: u64,
    pub text_run_compaction_bytes_read: u64,
    pub text_run_compaction_bytes_written: u64,
    pub text_checkpoint_bytes_written: u64,
}

/// What was done and what is there. Times are in nanoseconds.
#[derive(Clone, Copy, PartialEq, Eq, Structural, Debug)]
pub struct MaintenanceStats {
    /// Successful commits that changed something.
    pub commits: u64,
    /// The time inside commits, waits and checkpoints that they led to included.
    pub commit_time: u64,
    /// The time spent waiting for the commit lock.
    pub commit_lock_wait_time: u64,
    /// The time spent on conflict checks, encoding, validation and memory sizing.
    pub commit_prepare_time: u64,
    /// The time spent on the log, its syncs included.
    pub commit_wal_time: u64,
    /// The time spent on publication in memory.
    pub commit_apply_time: u64,
    pub checkpoints: u64,
    pub checkpoint_time: u64,
    pub automatic_compactions: u64,
    pub automatic_compaction_time: u64,
    pub automatic_compaction_failures: u64,
    pub automatic_compaction_bytes_reclaimed: u64,
    /// Runs of the primary index that were promoted to a higher level.
    pub primary_run_compactions: u64,
    pub primary_run_compaction_time: u64,
    pub primary_run_compaction_bytes_read: u64,
    pub primary_run_compaction_bytes_written: u64,
    /// What checkpoints wrote of the primary index.
    pub primary_checkpoint_bytes_written: u64,
    pub secondary_run_compactions: u64,
    pub secondary_run_compaction_time: u64,
    pub secondary_run_compaction_bytes_read: u64,
    pub secondary_run_compaction_bytes_written: u64,
    pub secondary_checkpoint_bytes_written: u64,
    pub text_run_compactions: u64,
    pub text_run_compaction_time: u64,
    pub text_run_compaction_bytes_read: u64,
    pub text_run_compaction_bytes_written: u64,
    pub text_checkpoint_bytes_written: u64,
    /// Operations that wait for a compaction.
    pub compaction_debt_operations: u64,
    /// What a compaction would give back, by a careful estimate.
    pub estimated_reclaimable_bytes: u64,
    pub segments: usize,
    /// The runs that a search of the primary index looks at.
    pub primary_runs: usize,
    /// The runs of all equality indexes.
    pub secondary_runs: usize,
    /// The runs of all text indexes.
    pub text_runs: usize,
}

/// The runs of the first indexes.
pub open spec fn runs_of(slots: Seq<SecSlot>, n: int) -> int
    decreases n,
{
    if n <= 0 {
        0
    } else {
        runs_of(slots, n - 1) + slots[n - 1].index.runs@.len()
    }
}

fn count_runs(slots: &Vec<SecSlot>) -> (r: usize)
    ensures
        r == record::capped(runs_of(slots@, slots@.len() as int)),
{
    let mut total: usize = 0;
    let mut i: usize = 0;
    while i < slots.len()
        invariant
            i <= slots@.len(),
            total == record::capped(runs_of(slots@, i as int)),
            runs_of(slots@, i as int) >= 0,
        decreases slots@.len() - i,
    {
        total = total.saturating_add(slots[i].index.runs.len());
        i = i + 1;
    }
    total
}

impl MaintenanceCounters {
    pub fn new() -> (r: MaintenanceCounters)
        ensures
            r.commits == 0,
            r.commit_time == 0,
            r.commit_lock_wait_time == 0,
            r.commit_prepare_time == 0,
            r.commit_wal_time == 0,
            r.commit_apply_time == 0,
            r.checkpoints == 0,
            r.checkpoint_time == 0,
            r.automatic_compactions == 0,
            r.automatic_compaction_time == 0,
            r.automatic_compaction_failures == 0,
            r.automatic_compaction_bytes_reclaimed == 0,
            r.primary_run_compactions == 0,
            r.primary_run_compaction_time == 0,
            r.primary_run_compaction_bytes_read == 0,
            r.primary_run_compaction_bytes_written == 0,
            r.primary_checkpoint_bytes_written == 0,
            r.secondary_run_compactions == 0,
            r.secondary_run_compaction_time == 0,
            r.secondary_run_compaction_bytes_read == 0,
            r.secondary_run_compaction_bytes_written == 0,
            r.secondary_checkpoint_bytes_written == 0,
            r.text_run_compactions == 0,
            r.text_run_compaction_time == 0,
            r.text_run_compaction_bytes_read == 0,
            r.text_run_compaction_bytes_written == 0,
            r.text_checkpoint_bytes_written == 0,
    {
        MaintenanceCounters {
            commits: 0,
            commit_time: 0,
            commit_lock_wait_time: 0,
            commit_prepare_time: 0,
            commit_wal_time: 0,
            commit_apply_time: 0,
            checkpoints: 0,
            checkpoint_time: 0,
            automatic_compactions: 0,
            automatic_compaction_time: 0,
            automatic_compaction_failures: 0,
            automatic_compaction_bytes_reclaimed: 0,
            primary_run_compactions: 0,
            primary_run_compaction_time: 0,
            primary_run_compaction_bytes_read: 0,
            primary_run_compaction_bytes_written: 0,
            primary_checkpoint_bytes_written: 0,
            secondary_run_compactions: 0,
            secondary_run_compaction_time: 0,
            secondary_run_compaction_bytes_read: 0,
            secondary_run_compaction_bytes_written: 0,
            secondary_checkpoint_bytes_written: 0,
            text_run_compactions: 0,
            text_run_compaction_time: 0,
            text_run_compaction_bytes_read: 0,
            text_run_compaction_bytes_written: 0,
            text_checkpoint_bytes_written: 0,
        }
    }

    /// A compaction that was started by itself has ended.
    pub fn record_automatic_compaction(&mut self, done: bool, nanos: u64, before: u64, after: u64)
        ensures
            *final(self) == (if done {
                MaintenanceCounters {
                    automatic_compactions: vstd::wrapping::u64_specs::wrapping_add(old(self).automatic_compactions, 1),
                    automatic_compaction_time: vstd::wrapping::u64_specs::wrapping_add(old(self).automatic_compaction_time, nanos),
                    automatic_compaction_bytes_reclaimed: vstd::wrapping::u64_specs::wrapping_add(
                        old(self).automatic_compaction_bytes_reclaimed,
                        reclaimed(before, after),
                    ),
                    ..*old(self)
                }
            } else {
                MaintenanceCounters {
                    automatic_compaction_failures: vstd::wrapping::u64_specs::wrapping_add(
                        old(self).automatic_compaction_failures,
                        1,
                    ),
                    ..*old(self)
                }
            }),
    {
        if done {
            self.automatic_compactions = self.automatic_compactions.wrapping_add(1);
            self.automatic_compaction_time = self.automatic_compaction_time.wrapping_add(nanos);
            self.automatic_compaction_bytes_reclaimed = self.automatic_compaction_bytes_reclaimed.wrapping_add(
                before.saturating_sub(after),
            );
        } else {
            self.automatic_compaction_failures = self.automatic_compaction_failures.wrapping_add(1);
        }
    }

    /// The counts, with what is in the database now.
    pub fn maintenance_stats(
        &self,
        st: &State,
        compaction_debt_operations: u64,
        estimated_reclaimable_bytes: u64,
        text_runs: usize,
    ) -> (r: MaintenanceStats)
        ensures
            r.compaction_debt_operations == compaction_debt_operations,
            r.estimated_reclaimable_bytes == estimated_reclaimable_bytes,
            r.segments == st.metas@.len(),
            r.primary_runs == st.index.runs@.len(),
            r.secondary_runs == record::capped(runs_of(st.secondary@, st.secondary@.len() as int)),
            r.text_runs == text_runs,
            r.commits == self.commits,
            r.commit_time == self.commit_time,
            r.commit_lock_wait_time == self.commit_lock_wait_time,
            r.commit_prepare_time == self.commit_prepare_time,
            r.commit_wal_time == self.commit_wal_time,
            r.commit_apply_time == self.commit_apply_time,
            r.checkpoints == self.checkpoints,
            r.checkpoint_time == self.checkpoint_time,
            r.automatic_compactions == self.automatic_compactions,
            r.automatic_compaction_time == self.automatic_compaction_time,
            r.automatic_compaction_failures == self.automatic_compaction_failures,
            r.automatic_compaction_bytes_reclaimed == self.automatic_compaction_bytes_reclaimed,
            r.primary_run_compactions == self.primary_run_compactions,
            r.primary_run_compaction_time == self.primary_run_compaction_time,
            r.primary_run_compaction_bytes_read == self.primary_run_compaction_bytes_read,
            r.primary_run_compaction_bytes_written == self.primary_run_compaction_bytes_written,
            r.primary_checkpoint_bytes_written == self.primary_checkpoint_bytes_written,
            r.secondary_run_compactions == self.secondary_run_compactions,
            r.secondary_run_compaction_time == self.secondary_run_compaction_time,
            r.secondary_run_compaction_bytes_read == self.secondary_run_compaction_bytes_read,
            r.secondary_run_compaction_bytes_written == self.secondary_run_compaction_bytes_written,
            r.secondary_checkpoint_bytes_written == self.secondary_checkpoint_bytes_written,
            r.text_run_compactions == self.text_run_compactions,
            r.text_run_compaction_time == self.text_run_compaction_time,
            r.text_run_compaction_bytes_read == self.text_run_compaction_bytes_read,
            r.text_run_compaction_bytes_written == self.text_run_compaction_bytes_written,
            r.text_checkpoint_bytes_written == self.text_checkpoint_bytes_written,
    {
        MaintenanceStats {
            commits: self.commits,
            commit_time: self.commit_time,
            commit_lock_wait_time: self.commit_lock_wait_time,
            commit_prepare_time: self.commit_prepare_time,
            commit_wal_time: self.commit_wal_time,
            commit_apply_time: self.commit_apply_time,
            checkpoints: self.checkpoints,
            checkpoint_time: self.checkpoint_time,
            automatic_compactions: self.automatic_compactions,
            automatic_compaction_time: self.automatic_compaction_time,
            automatic_compaction_failures: self.automatic_compaction_failures,
            automatic_compaction_bytes_reclaimed: self.automatic_compaction_bytes_reclaimed,
            primary_run_compactions: self.primary_run_compactions,
            primary_run_compaction_time: self.primary_run_compaction_time,
            primary_run_compaction_bytes_read: self.primary_run_compaction_bytes_read,
            primary_run_compaction_bytes_written: self.primary_run_compaction_bytes_written,
            primary_checkpoint_bytes_written: self.primary_checkpoint_bytes_written,
            secondary_run_compactions: self.secondary_run_compactions,
            secondary_run_compaction_time: self.secondary_run_compaction_time,
            secondary_run_compaction_bytes_read: self.secondary_run_compaction_bytes_read,
            secondary_run_compaction_bytes_written: self.secondary_run_compaction_bytes_written,
            secondary_checkpoint_bytes_written: self.secondary_checkpoint_bytes_written,
            text_run_compactions: self.text_run_compactions,
            text_run_compaction_time: self.text_run_compaction_time,
            text_run_compaction_bytes_read: self.text_run_compaction_bytes_read,
            text_run_compaction_bytes_written: self.text_run_compaction_bytes_written,
            text_checkpoint_bytes_written: self.text_checkpoint_bytes_written,
            compaction_debt_operations,
            estimated_reclaimable_bytes,
            segments: st.metas.len(),
            primary_runs: st.index.runs.len(),
            secondary_runs: count_runs(&st.secondary),
            text_runs,
        }
    }
}

/// The bytes that a rewrite gave back.
pub open spec fn reclaimed(before: u64, after: u64) -> u64 {
    if before > after {
        (before - after) as u64
    } else {
        0
    }
}

/// What queries put aside, and the greatest buffer that one held.
pub struct QueryCounters {
    pub spill_files: u64,
    pub spilled_bytes: u64,
    pub peak_buffer_bytes: u64,
}

impl QueryCounters {
    pub fn new() -> (r: QueryCounters)
        ensures
            r.spill_files == 0,
            r.spilled_bytes == 0,
            r.peak_buffer_bytes == 0,
    {
        QueryCounters { spill_files: 0, spilled_bytes: 0, peak_buffer_bytes: 0 }
    }

    pub fn record_query_buffer(&mut self, bytes: u64)
        ensures
            final(self).peak_buffer_bytes == (if bytes > old(self).peak_buffer_bytes {
                bytes
            } else {
                old(self).peak_buffer_bytes
            }),
            final(self).spill_files == old(self).spill_files,
            final(self).spilled_bytes == old(self).spilled_bytes,
    {
        if bytes > self.peak_buffer_bytes {
            self.peak_buffer_bytes = bytes;
        }
    }

    pub fn record_query_spill(&mut self, bytes: u64)
        ensures
            final(self).spill_files == vstd::wrapping::u64_specs::wrapping_add(old(self).spill_files, 1),
            final(self).spilled_bytes == vstd::wrapping::u64_specs::wrapping_add(old(self).spilled_bytes, bytes),
            final(self).peak_buffer_bytes == old(self).peak_buffer_bytes,
    {
        self.spill_files = self.spill_files.wrapping_add(1);
        self.spilled_bytes = self.spilled_bytes.wrapping_add(bytes);
    }

    pub fn query_memory_stats(&self) -> (r: QueryMemoryStats)
        ensures
            r.spill_files == self.spill_files,
            r.spilled_bytes == self.spilled_bytes,
            r.peak_buffer_bytes == self.peak_buffer_bytes,
    {
        QueryMemoryStats {
            spill_files: self.spill_files,
            spilled_bytes: self.spilled_bytes,
            peak_buffer_bytes: self.peak_buffer_bytes,
        }
    }
}

} // verus!
