//! Engine tuning options and their validation.

use crate::error::{invalid, Error, ErrorView};
use crate::memory::MemoryLimits;
use crate::text::{self, decimal_text};
use vstd::prelude::*;
use vstd::string::*;

verus! {

pub const MIB: usize = 1_048_576;

/// When a commit's log record reaches the disk.
#[derive(Debug, Clone, Copy, PartialEq, Eq, Structural)]
pub enum Durability {
    /// Before the commit returns.
    Safe,
    /// On a timer.
    Balanced,
    /// When the operating system chooses.
    Fast,
}

/// Bounded working-memory policy for query execution.
#[derive(Debug)]
pub struct MemoryOptions {
    /// Total engine-owned working-memory envelope for one open database.
    pub total_memory_bytes: usize,
    /// Shared capacity for all concurrent searches.
    pub query_pool_bytes: usize,
    /// Working memory available to one query.
    pub query_working_bytes: usize,
    /// Maximum retained estimate for primary and derived-index deltas.
    pub index_delta_pool_bytes: usize,
    /// Capacity reserved for one checkpoint, consolidation or compaction.
    pub maintenance_pool_bytes: usize,
    /// Headroom that belongs to the total but to no allocatable pool.
    pub reserved_memory_bytes: usize,
    /// Maximum number of records decoded by a table scan at once.
    pub scan_batch_rows: usize,
    /// Directory for ephemeral query runs; none means the system's own.
    pub spill_directory: Option<String>,
}

/// Conservative automatic-compaction policy.
#[derive(Debug, Clone, Copy)]
pub struct AutoCompactionOptions {
    pub enabled: bool,
    /// Superseding committed row operations before the ratio is evaluated.
    pub min_obsolete_operations: u64,
    /// Minimum estimated obsolete share of segment bytes, in percent.
    pub min_reclaim_ratio_percent: u8,
    /// Compact regardless of operation count at this many reclaimable bytes.
    pub force_reclaim_bytes: u64,
    /// Merge segments at this count even for an insert-only workload.
    pub max_segments: usize,
    /// Minimum delay after one automatic attempt before another.
    pub min_interval_ms: u64,
}

/// Engine tuning options.
#[derive(Debug)]
pub struct DbOptions {
    pub durability: Durability,
    /// Checkpoint once this much committed data accumulates in memory.
    pub memtable_max_bytes: u64,
    /// Maximum time between log syncs in `Balanced` mode.
    pub balanced_sync_interval_ms: u64,
    /// Every write operation is refused.
    pub read_only: bool,
    /// Blob values at or above this size are stored out of line.
    pub external_blob_threshold: usize,
    pub auto_compaction: AutoCompactionOptions,
    pub memory: MemoryOptions,
}

/// Cumulative memory-pressure counters for queries.
#[derive(Debug, Clone, Copy)]
pub struct QueryMemoryStats {
    pub spill_files: u64,
    pub spilled_bytes: u64,
    pub peak_buffer_bytes: u64,
}

pub open spec fn mib(n: int) -> usize {
    (n * 1_048_576) as usize
}

impl MemoryOptions {
    /// The pools and the reserve together.
    pub open spec fn assigned(self) -> int {
        self.query_pool_bytes + self.index_delta_pool_bytes + self.maintenance_pool_bytes + self.reserved_memory_bytes
    }

    /// The first rule that the options break, if any.
    pub open spec fn complaint(self) -> Option<Seq<char>> {
        if self.total_memory_bytes == 0 {
            Some("memory.total_memory_bytes must be positive"@)
        } else if self.query_pool_bytes == 0 || self.index_delta_pool_bytes == 0 || self.maintenance_pool_bytes == 0 {
            Some("memory query/index/maintenance pools must be positive"@)
        } else if self.query_working_bytes == 0 {
            Some("memory.query_working_bytes must be positive"@)
        } else if self.scan_batch_rows == 0 {
            Some("memory.scan_batch_rows must be positive"@)
        } else if self.query_working_bytes > self.query_pool_bytes {
            Some("memory.query_working_bytes cannot exceed memory.query_pool_bytes"@)
        } else if self.index_delta_pool_bytes > self.maintenance_pool_bytes {
            Some("memory.index_delta_pool_bytes cannot exceed memory.maintenance_pool_bytes"@)
        } else if self.assigned() > usize::MAX {
            Some("memory pool sizes overflow usize"@)
        } else if self.assigned() > self.total_memory_bytes {
            Some(
                "memory pools plus reserve ("@ + text::decimal(self.assigned() as nat) + " bytes) exceed total_memory_bytes ("@
                    + text::decimal(self.total_memory_bytes as nat) + ")"@,
            )
        } else {
            None
        }
    }

    /// A profile of 512 MiB for sustained transactional ingestion.
    pub fn ingest_performance() -> (r: Self)
        ensures
            r.total_memory_bytes == mib(512),
            r.query_pool_bytes == mib(64),
            r.query_working_bytes == mib(16),
            r.index_delta_pool_bytes == mib(192),
            r.maintenance_pool_bytes == mib(192),
            r.reserved_memory_bytes == mib(8),
            r.scan_batch_rows == 512,
            r.spill_directory is None,
            r.complaint() is None,
    {
        MemoryOptions {
            total_memory_bytes: 512 * MIB,
            query_pool_bytes: 64 * MIB,
            query_working_bytes: 16 * MIB,
            index_delta_pool_bytes: 192 * MIB,
            maintenance_pool_bytes: 192 * MIB,
            reserved_memory_bytes: 8 * MIB,
            scan_batch_rows: 512,
            spill_directory: None,
        }
    }

    /// Whether the sizes agree with each other.
    pub fn validate(&self) -> (r: Result<(), Error>)
        ensures
            r is Ok <==> self.complaint() is None,
            r matches Err(e) ==> e@ == ErrorView::InvalidArgument(self.complaint()->0),
    {
        if self.total_memory_bytes == 0 {
            return Err(invalid("memory.total_memory_bytes must be positive"));
        }
        if self.query_pool_bytes == 0 || self.index_delta_pool_bytes == 0 || self.maintenance_pool_bytes == 0 {
            return Err(invalid("memory query/index/maintenance pools must be positive"));
        }
        if self.query_working_bytes == 0 {
            return Err(invalid("memory.query_working_bytes must be positive"));
        }
        if self.scan_batch_rows == 0 {
            return Err(invalid("memory.scan_batch_rows must be positive"));
        }
        if self.query_working_bytes > self.query_pool_bytes {
            return Err(invalid("memory.query_working_bytes cannot exceed memory.query_pool_bytes"));
        }
        if self.index_delta_pool_bytes > self.maintenance_pool_bytes {
            return Err(invalid("memory.index_delta_pool_bytes cannot exceed memory.maintenance_pool_bytes"));
        }
        let assigned: u128 = self.query_pool_bytes as u128 + self.index_delta_pool_bytes as u128
            + self.maintenance_pool_bytes as u128 + self.reserved_memory_bytes as u128;
        if assigned > usize::MAX as u128 {
            return Err(invalid("memory pool sizes overflow usize"));
        }
        if assigned > self.total_memory_bytes as u128 {
            let message = "memory pools plus reserve (".to_owned().concat(decimal_text(assigned as u64).as_str()).concat(
                " bytes) exceed total_memory_bytes (",
            ).concat(decimal_text(self.total_memory_bytes as u64).as_str()).concat(")");
            return Err(Error::InvalidArgument(message));
        }
        Ok(())
    }

    pub fn limits(&self) -> (r: MemoryLimits)
        ensures
            r == (MemoryLimits {
                total: self.total_memory_bytes,
                query: self.query_pool_bytes,
                index_delta: self.index_delta_pool_bytes,
                maintenance: self.maintenance_pool_bytes,
                reserve: self.reserved_memory_bytes,
            }),
    {
        MemoryLimits {
            total: self.total_memory_bytes,
            query: self.query_pool_bytes,
            index_delta: self.index_delta_pool_bytes,
            maintenance: self.maintenance_pool_bytes,
            reserve: self.reserved_memory_bytes,
        }
    }

    /// Options that validate leave every pool, and the reserve, within the
    /// total, and one query within its pool.
    pub proof fn lemma_budget(self)
        requires
            self.complaint() is None,
        ensures
            self.query_pool_bytes + self.index_delta_pool_bytes + self.maintenance_pool_bytes + self.reserved_memory_bytes
                <= self.total_memory_bytes,
            0 < self.query_working_bytes <= self.query_pool_bytes,
            0 < self.index_delta_pool_bytes <= self.maintenance_pool_bytes,
    {
    }
}

impl Default for MemoryOptions {
    fn default() -> (r: Self)
        ensures
            r.total_memory_bytes == mib(384),
            r.query_pool_bytes == mib(64),
            r.query_working_bytes == mib(16),
            r.index_delta_pool_bytes == mib(128),
            r.maintenance_pool_bytes == mib(128),
            r.reserved_memory_bytes == mib(8),
            r.scan_batch_rows == 512,
            r.spill_directory is None,
            r.complaint() is None,
    {
        MemoryOptions {
            total_memory_bytes: 384 * MIB,
            query_pool_bytes: 64 * MIB,
            query_working_bytes: 16 * MIB,
            index_delta_pool_bytes: 128 * MIB,
            maintenance_pool_bytes: 128 * MIB,
            reserved_memory_bytes: 8 * MIB,
            scan_batch_rows: 512,
            spill_directory: None,
        }
    }
}

pub open spec fn default_auto_compaction() -> AutoCompactionOptions {
    AutoCompactionOptions {
        enabled: true,
        min_obsolete_operations: 10_000,
        min_reclaim_ratio_percent: 25,
        force_reclaim_bytes: 268_435_456,
        max_segments: 64,
        min_interval_ms: 60_000,
    }
}

impl AutoCompactionOptions {
    /// The first rule that the options break, if any.
    pub open spec fn complaint(self) -> Option<Seq<char>> {
        if self.min_reclaim_ratio_percent > 100 {
            Some("auto_compaction.min_reclaim_ratio_percent must be between 0 and 100"@)
        } else if self.enabled && self.min_obsolete_operations == 0 {
            Some("auto_compaction.min_obsolete_operations must be positive"@)
        } else if self.enabled && self.force_reclaim_bytes == 0 {
            Some("auto_compaction.force_reclaim_bytes must be positive"@)
        } else if self.enabled && self.max_segments < 2 {
            Some("auto_compaction.max_segments must be at least 2"@)
        } else {
            None
        }
    }

    /// The default policy, switched off.
    pub fn disabled() -> (r: Self)
        ensures
            r == (AutoCompactionOptions { enabled: false, ..default_auto_compaction() }),
            r.complaint() is None,
    {
        AutoCompactionOptions { enabled: false, ..AutoCompactionOptions::default() }
    }

    pub fn validate(&self) -> (r: Result<(), Error>)
        ensures
            r is Ok <==> self.complaint() is None,
            r matches Err(e) ==> e@ == ErrorView::InvalidArgument(self.complaint()->0),
    {
        if self.min_reclaim_ratio_percent > 100 {
            return Err(invalid("auto_compaction.min_reclaim_ratio_percent must be between 0 and 100"));
        }
        if self.enabled && self.min_obsolete_operations == 0 {
            return Err(invalid("auto_compaction.min_obsolete_operations must be positive"));
        }
        if self.enabled && self.force_reclaim_bytes == 0 {
            return Err(invalid("auto_compaction.force_reclaim_bytes must be positive"));
        }
        if self.enabled && self.max_segments < 2 {
            return Err(invalid("auto_compaction.max_segments must be at least 2"));
        }
        Ok(())
    }
}

impl Default for AutoCompactionOptions {
    fn default() -> (r: Self)
        ensures
            r == default_auto_compaction(),
            r.complaint() is None,
    {
        AutoCompactionOptions {
            enabled: true,
            min_obsolete_operations: 10_000,
            min_reclaim_ratio_percent: 25,
            force_reclaim_bytes: 256 * 1024 * 1024,
            max_segments: 64,
            min_interval_ms: 60_000,
        }
    }
}

impl Default for DbOptions {
    fn default() -> (r: Self)
        ensures
            r.durability == Durability::Safe,
            r.memtable_max_bytes == 67_108_864,
            r.balanced_sync_interval_ms == 25,
            r.read_only == false,
            r.external_blob_threshold == 262_144,
            r.auto_compaction == default_auto_compaction(),
            r.memory.total_memory_bytes == mib(384),
            r.memory.query_pool_bytes == mib(64),
            r.memory.query_working_bytes == mib(16),
            r.memory.index_delta_pool_bytes == mib(128),
            r.memory.maintenance_pool_bytes == mib(128),
            r.memory.reserved_memory_bytes == mib(8),
            r.memory.scan_batch_rows == 512,
            r.memory.spill_directory is None,
            r.memory.complaint() is None,
    {
        DbOptions {
            durability: Durability::Safe,
            memtable_max_bytes: 64 * 1024 * 1024,
            balanced_sync_interval_ms: 25,
            read_only: false,
            external_blob_threshold: 256 * 1024,
            auto_compaction: AutoCompactionOptions::default(),
            memory: MemoryOptions::default(),
        }
    }
}

impl DbOptions {
    /// A bounded profile for faster sustained ingestion.
    pub fn ingest_performance() -> (r: Self)
        ensures
            r.durability == Durability::Safe,
            r.memtable_max_bytes == 134_217_728,
            r.balanced_sync_interval_ms == 25,
            r.read_only == false,
            r.external_blob_threshold == 262_144,
            r.auto_compaction == default_auto_compaction(),
            r.memory.total_memory_bytes == mib(512),
            r.memory.query_pool_bytes == mib(64),
            r.memory.query_working_bytes == mib(16),
            r.memory.index_delta_pool_bytes == mib(192),
            r.memory.maintenance_pool_bytes == mib(192),
            r.memory.reserved_memory_bytes == mib(8),
            r.memory.scan_batch_rows == 512,
            r.memory.spill_directory is None,
            r.memory.complaint() is None,
    {
        let base = DbOptions::default();
        DbOptions {
            durability: base.durability,
            memtable_max_bytes: 128 * 1024 * 1024,
            balanced_sync_interval_ms: base.balanced_sync_interval_ms,
            read_only: base.read_only,
            external_blob_threshold: base.external_blob_threshold,
            auto_compaction: base.auto_compaction,
            memory: MemoryOptions::ingest_performance(),
        }
    }

    /// The first rule that the options break: those of automatic compaction,
    /// then those of memory.
    pub open spec fn complaint(self) -> Option<Seq<char>> {
        match self.auto_compaction.complaint() {
            Some(m) => Some(m),
            None => self.memory.complaint(),
        }
    }

    /// Whether a database can be opened with these options.
    pub fn validate(&self) -> (r: Result<(), Error>)
        ensures
            r is Ok <==> self.complaint() is None,
            r matches Err(e) ==> e@ == ErrorView::InvalidArgument(self.complaint()->0),
    {
        match self.auto_compaction.validate() {
            Err(e) => Err(e),
            Ok(()) => self.memory.validate(),
        }
    }
}

} // verus!
