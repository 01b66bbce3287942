//! Database-wide admission control for engine-owned working memory.
//!
//! The governor accounts estimated operator and index memory. Each pool has an
//! independent ceiling, and all pools plus the emergency reserve fit under one
//! configured database budget. The caller serializes access to a governor and
//! wakes the waiting requests after each step that says so.

use vstd::prelude::*;

verus! {

#[derive(Debug, Clone, Copy)]
pub struct MemoryLimits {
    pub total: usize,
    pub query: usize,
    pub index_delta: usize,
    pub maintenance: usize,
    pub reserve: usize,
}

#[derive(Debug, Clone, Copy)]
pub struct GlobalMemoryStats {
    pub total_bytes: u64,
    pub reserved_bytes: u64,
    pub query_capacity_bytes: u64,
    pub query_in_use_bytes: u64,
    pub query_peak_bytes: u64,
    pub query_waits: u64,
    pub index_delta_capacity_bytes: u64,
    pub index_delta_bytes: u64,
    pub index_delta_peak_bytes: u64,
    pub index_consolidations: u64,
    pub maintenance_capacity_bytes: u64,
    pub maintenance_in_use_bytes: u64,
    pub maintenance_peak_bytes: u64,
    pub maintenance_waits: u64,
}

#[derive(Debug, Clone, Copy, PartialEq, Eq, Structural)]
pub enum MemoryPool {
    Query,
    Maintenance,
}

#[derive(Debug, Clone, Copy)]
pub struct PoolState {
    pub used: usize,
    pub peak: usize,
    pub waits: u64,
}

/// What a request for memory came to.
#[derive(Debug, Clone, Copy, PartialEq, Eq, Structural)]
pub enum Admission {
    /// The bytes are reserved until they are released.
    Granted,
    /// The pool is too full; ask again after a release.
    Wait,
}

pub struct MemoryGovernor {
    pub limits: MemoryLimits,
    pub query: PoolState,
    pub maintenance: PoolState,
    pub index_delta: usize,
    pub index_delta_peak: usize,
    pub index_consolidations: u64,
}

pub open spec fn saturated(n: int, max: int) -> int {
    if n > max {
        max
    } else {
        n
    }
}

pub open spec fn larger(a: int, b: int) -> int {
    if a >= b {
        a
    } else {
        b
    }
}

impl PoolState {
    pub open spec fn after_grant(self, bytes: int) -> PoolState {
        PoolState {
            used: (self.used + bytes) as usize,
            peak: larger(self.peak as int, self.used + bytes) as usize,
            waits: self.waits,
        }
    }

    pub open spec fn after_wait(self) -> PoolState {
        PoolState { used: self.used, peak: self.peak, waits: saturated(self.waits + 1, u64::MAX as int) as u64 }
    }

    fn grant(&mut self, bytes: usize)
        requires
            old(self).used + bytes <= usize::MAX,
        ensures
            *final(self) == old(self).after_grant(bytes as int),
    {
        self.used = self.used + bytes;
        if self.used > self.peak {
            self.peak = self.used;
        }
    }

    fn count_wait(&mut self)
        ensures
            *final(self) == old(self).after_wait(),
    {
        self.waits = self.waits.saturating_add(1);
    }
}

impl MemoryGovernor {
    pub open spec fn pool(self, pool: MemoryPool) -> PoolState {
        match pool {
            MemoryPool::Query => self.query,
            MemoryPool::Maintenance => self.maintenance,
        }
    }

    pub open spec fn capacity_of(self, pool: MemoryPool) -> int {
        match pool {
            MemoryPool::Query => self.limits.query as int,
            MemoryPool::Maintenance => self.limits.maintenance as int,
        }
    }

    pub open spec fn with_pool(self, pool: MemoryPool, state: PoolState) -> MemoryGovernor {
        match pool {
            MemoryPool::Query => MemoryGovernor { query: state, ..self },
            MemoryPool::Maintenance => MemoryGovernor { maintenance: state, ..self },
        }
    }

    /// The same with `bytes` more of index deltas.
    pub open spec fn with_delta(self, bytes: int) -> MemoryGovernor {
        let delta = saturated(self.index_delta + bytes, usize::MAX as int);
        MemoryGovernor {
            index_delta: delta as usize,
            index_delta_peak: larger(self.index_delta_peak as int, delta) as usize,
            ..self
        }
    }

    /// No pool holds more than its capacity, and no peak lies below what is in use.
    pub open spec fn wf(self) -> bool {
        &&& self.query.used <= self.limits.query
        &&& self.maintenance.used <= self.limits.maintenance
        &&& self.query.used <= self.query.peak <= self.limits.query
        &&& self.maintenance.used <= self.maintenance.peak <= self.limits.maintenance
        &&& self.index_delta <= self.index_delta_peak
    }

    /// Whether a request fits beside what is in use.
    pub open spec fn fits(self, pool: MemoryPool, bytes: int) -> bool {
        self.pool(pool).used + bytes <= self.capacity_of(pool)
    }

    pub fn new(limits: MemoryLimits) -> (r: MemoryGovernor)
        ensures
            r.wf(),
            r.limits == limits,
            r.query == (PoolState { used: 0, peak: 0, waits: 0 }),
            r.maintenance == (PoolState { used: 0, peak: 0, waits: 0 }),
            r.index_delta == 0,
            r.index_delta_peak == 0,
            r.index_consolidations == 0,
    {
        MemoryGovernor {
            limits,
            query: PoolState { used: 0, peak: 0, waits: 0 },
            maintenance: PoolState { used: 0, peak: 0, waits: 0 },
            index_delta: 0,
            index_delta_peak: 0,
            index_consolidations: 0,
        }
    }

    pub fn capacity(&self, pool: MemoryPool) -> (r: usize)
        ensures
            r == self.capacity_of(pool),
    {
        match pool {
            MemoryPool::Query => self.limits.query,
            MemoryPool::Maintenance => self.limits.maintenance,
        }
    }

    /// One step of a request that may wait. A request that has to wait counts
    /// once, however often it asks: `counted` says whether it has been counted.
    pub fn acquire(&mut self, pool: MemoryPool, bytes: usize, counted: bool) -> (r: Admission)
        requires
            old(self).wf(),
        ensures
            final(self).wf(),
            r == Admission::Granted <==> old(self).fits(pool, bytes as int),
            r == Admission::Granted ==> *final(self) == old(self).with_pool(
                pool,
                old(self).pool(pool).after_grant(bytes as int),
            ),
            r == Admission::Wait && counted ==> *final(self) == *old(self),
            r == Admission::Wait && !counted ==> *final(self) == old(self).with_pool(pool, old(self).pool(pool).after_wait()),
    {
        if self.try_acquire(pool, bytes) {
            return Admission::Granted;
        }
        if !counted {
            match pool {
                MemoryPool::Query => {
                    self.query.count_wait();
                },
                MemoryPool::Maintenance => {
                    self.maintenance.count_wait();
                },
            }
        }
        Admission::Wait
    }

    /// Reserve the bytes if they fit now.
    pub fn try_acquire(&mut self, pool: MemoryPool, bytes: usize) -> (r: bool)
        requires
            old(self).wf(),
        ensures
            final(self).wf(),
            r == old(self).fits(pool, bytes as int),
            r ==> *final(self) == old(self).with_pool(pool, old(self).pool(pool).after_grant(bytes as int)),
            !r ==> *final(self) == *old(self),
    {
        let capacity: usize = self.capacity(pool);
        match pool {
            MemoryPool::Query => {
                if bytes > capacity || self.query.used > capacity - bytes {
                    return false;
                }
                self.query.grant(bytes);
            },
            MemoryPool::Maintenance => {
                if bytes > capacity || self.maintenance.used > capacity - bytes {
                    return false;
                }
                self.maintenance.grant(bytes);
            },
        }
        true
    }

    /// Give reserved bytes back. Waiting requests are to ask again.
    pub fn release(&mut self, pool: MemoryPool, bytes: usize)
        requires
            old(self).wf(),
        ensures
            final(self).wf(),
            *final(self) == old(self).with_pool(
                pool,
                (PoolState {
                    used: larger(old(self).pool(pool).used - bytes, 0) as usize,
                    ..old(self).pool(pool)
                }),
            ),
    {
        match pool {
            MemoryPool::Query => {
                self.query.used = self.query.used.saturating_sub(bytes);
            },
            MemoryPool::Maintenance => {
                self.maintenance.used = self.maintenance.used.saturating_sub(bytes);
            },
        }
    }

    /// Whether `additional` bytes of index deltas would pass their limit.
    pub fn index_would_exceed(&self, additional: usize) -> (r: bool)
        ensures
            r == (saturated(self.index_delta + additional, usize::MAX as int) > self.limits.index_delta),
    {
        self.index_delta.saturating_add(additional) > self.limits.index_delta
    }

    /// Set the retained index-delta bytes. Waiting requests are to ask again.
    pub fn set_index_delta_bytes(&mut self, bytes: usize)
        requires
            old(self).wf(),
        ensures
            final(self).wf(),
            *final(self) == (MemoryGovernor {
                index_delta: bytes,
                index_delta_peak: larger(old(self).index_delta_peak as int, bytes as int) as usize,
                ..*old(self)
            }),
    {
        self.index_delta = bytes;
        if bytes > self.index_delta_peak {
            self.index_delta_peak = bytes;
        }
    }

    pub fn add_index_delta_bytes(&mut self, bytes: usize)
        requires
            old(self).wf(),
        ensures
            final(self).wf(),
            *final(self) == old(self).with_delta(bytes as int),
    {
        self.index_delta = self.index_delta.saturating_add(bytes);
        if self.index_delta > self.index_delta_peak {
            self.index_delta_peak = self.index_delta;
        }
    }

    pub fn record_index_consolidation(&mut self)
        requires
            old(self).wf(),
        ensures
            final(self).wf(),
            *final(self) == (MemoryGovernor {
                index_consolidations: saturated(old(self).index_consolidations + 1, u64::MAX as int) as u64,
                ..*old(self)
            }),
    {
        self.index_consolidations = self.index_consolidations.saturating_add(1);
    }

    pub fn index_capacity(&self) -> (r: usize)
        ensures
            r == self.limits.index_delta,
    {
        self.limits.index_delta
    }

    pub fn stats(&self) -> (r: GlobalMemoryStats)
        ensures
            r == (GlobalMemoryStats {
                total_bytes: self.limits.total as u64,
                reserved_bytes: self.limits.reserve as u64,
                query_capacity_bytes: self.limits.query as u64,
                query_in_use_bytes: self.query.used as u64,
                query_peak_bytes: self.query.peak as u64,
                query_waits: self.query.waits,
                index_delta_capacity_bytes: self.limits.index_delta as u64,
                index_delta_bytes: self.index_delta as u64,
                index_delta_peak_bytes: self.index_delta_peak as u64,
                index_consolidations: self.index_consolidations,
                maintenance_capacity_bytes: self.limits.maintenance as u64,
                maintenance_in_use_bytes: self.maintenance.used as u64,
                maintenance_peak_bytes: self.maintenance.peak as u64,
                maintenance_waits: self.maintenance.waits,
            }),
    {
        GlobalMemoryStats {
            total_bytes: self.limits.total as u64,
            reserved_bytes: self.limits.reserve as u64,
            query_capacity_bytes: self.limits.query as u64,
            query_in_use_bytes: self.query.used as u64,
            query_peak_bytes: self.query.peak as u64,
            query_waits: self.query.waits,
            index_delta_capacity_bytes: self.limits.index_delta as u64,
            index_delta_bytes: self.index_delta as u64,
            index_delta_peak_bytes: self.index_delta_peak as u64,
            index_consolidations: self.index_consolidations,
            maintenance_capacity_bytes: self.limits.maintenance as u64,
            maintenance_in_use_bytes: self.maintenance.used as u64,
            maintenance_peak_bytes: self.maintenance.peak as u64,
            maintenance_waits: self.maintenance.waits,
        }
    }
}

/// Releasing what was granted restores what was in use, so a request that
/// fitted before the grant fits again.
pub proof fn lemma_release_undoes_grant(g: MemoryGovernor, pool: MemoryPool, bytes: usize)
    requires
        g.wf(),
        g.fits(pool, bytes as int),
    ensures
        ({
            let granted = g.with_pool(pool, g.pool(pool).after_grant(bytes as int));
            let released = granted.with_pool(
                pool,
                (PoolState { used: larger(granted.pool(pool).used - bytes, 0) as usize, ..granted.pool(pool) }),
            );
            &&& granted.wf()
            &&& released.wf()
            &&& released.pool(pool).used == g.pool(pool).used
            &&& forall|n: int| #[trigger] released.fits(pool, n) == g.fits(pool, n)
        }),
{
}

/// One pool's reservations never take from another pool.
pub proof fn lemma_pools_independent(g: MemoryGovernor, bytes: usize)
    requires
        g.wf(),
        g.fits(MemoryPool::Query, bytes as int),
    ensures
        ({
            let granted = g.with_pool(MemoryPool::Query, g.query.after_grant(bytes as int));
            &&& granted.maintenance == g.maintenance
            &&& granted.index_delta == g.index_delta
            &&& forall|n: int| #[trigger] granted.fits(MemoryPool::Maintenance, n) == g.fits(MemoryPool::Maintenance, n)
        }),
{
}

// ---- Permits ----------------------------------------------------------------

/// One step that a governor is asked for.
pub enum MemoryStep {
    Acquire { pool: MemoryPool, bytes: usize, counted: bool },
    TryAcquire { pool: MemoryPool, bytes: usize },
    /// A live permit of a pool is given back.
    Drop { pool: MemoryPool, at: int },
    SetDelta { bytes: usize },
    AddDelta { bytes: usize },
}

/// A governor with the permits that it granted and that are still live.
pub struct Ledger {
    pub governor: MemoryGovernor,
    pub query: Seq<usize>,
    pub maintenance: Seq<usize>,
}

/// The sum of permits.
pub open spec fn total(permits: Seq<usize>) -> int
    decreases permits.len(),
{
    if permits.len() == 0 {
        0
    } else {
        total(permits.drop_last()) + permits.last()
    }
}

impl Ledger {
    pub open spec fn live(self, pool: MemoryPool) -> Seq<usize> {
        match pool {
            MemoryPool::Query => self.query,
            MemoryPool::Maintenance => self.maintenance,
        }
    }

    pub open spec fn with(self, pool: MemoryPool, state: PoolState, permits: Seq<usize>) -> Ledger {
        let governor = self.governor.with_pool(pool, state);
        match pool {
            MemoryPool::Query => Ledger { governor, query: permits, ..self },
            MemoryPool::Maintenance => Ledger { governor, maintenance: permits, ..self },
        }
    }

    /// The ledger after a step, as the governor's methods say.
    pub open spec fn after(self, s: MemoryStep) -> Ledger {
        let g = self.governor;
        match s {
            MemoryStep::Acquire { pool, bytes, counted } => if g.fits(pool, bytes as int) {
                self.with(pool, g.pool(pool).after_grant(bytes as int), self.live(pool).push(bytes))
            } else if counted {
                self
            } else {
                self.with(pool, g.pool(pool).after_wait(), self.live(pool))
            },
            MemoryStep::TryAcquire { pool, bytes } => if g.fits(pool, bytes as int) {
                self.with(pool, g.pool(pool).after_grant(bytes as int), self.live(pool).push(bytes))
            } else {
                self
            },
            MemoryStep::Drop { pool, at } => if 0 <= at < self.live(pool).len() {
                self.with(
                    pool,
                    (PoolState { used: larger(g.pool(pool).used - self.live(pool)[at], 0) as usize, ..g.pool(pool) }),
                    self.live(pool).remove(at),
                )
            } else {
                self
            },
            MemoryStep::SetDelta { bytes } => Ledger {
                governor: MemoryGovernor {
                    index_delta: bytes,
                    index_delta_peak: larger(g.index_delta_peak as int, bytes as int) as usize,
                    ..g
                },
                ..self
            },
            MemoryStep::AddDelta { bytes } => Ledger { governor: g.with_delta(bytes as int), ..self },
        }
    }

    pub open spec fn after_all(self, steps: Seq<MemoryStep>) -> Ledger
        decreases steps.len(),
    {
        if steps.len() == 0 {
            self
        } else {
            self.after_all(steps.drop_last()).after(steps.last())
        }
    }

    /// What each pool has in use is the sum of its live permits.
    pub open spec fn balanced(self) -> bool {
        &&& self.governor.wf()
        &&& self.governor.query.used == total(self.query)
        &&& self.governor.maintenance.used == total(self.maintenance)
    }
}

proof fn lemma_total_push(permits: Seq<usize>, bytes: usize)
    ensures
        total(permits.push(bytes)) == total(permits) + bytes,
{
    assert(permits.push(bytes).drop_last() =~= permits);
}

proof fn lemma_total_remove(permits: Seq<usize>, at: int)
    requires
        0 <= at < permits.len(),
    ensures
        total(permits.remove(at)) == total(permits) - permits[at],
        total(permits.remove(at)) >= 0,
    decreases permits.len(),
{
    let t = permits.drop_last();
    if at == permits.len() - 1 {
        assert(permits.remove(at) =~= t);
        lemma_total_positive(t);
    } else {
        lemma_total_remove(t, at);
        assert(permits.remove(at).drop_last() =~= t.remove(at));
        assert(permits.remove(at).last() == permits.last());
    }
}

proof fn lemma_total_positive(permits: Seq<usize>)
    ensures
        total(permits) >= 0,
    decreases permits.len(),
{
    if permits.len() > 0 {
        lemma_total_positive(permits.drop_last());
    }
}

/// From a new governor on, whatever is asked of it in whatever order: what a pool
/// has in use is the sum of its live permits, and is never more than its peak,
/// nor that more than the capacity of the pool. The limits stay.
pub proof fn lemma_permits_add_up(start: Ledger, steps: Seq<MemoryStep>)
    requires
        start.balanced(),
    ensures
        start.after_all(steps).balanced(),
        start.after_all(steps).governor.limits == start.governor.limits,
    decreases steps.len(),
{
    if steps.len() > 0 {
        lemma_permits_add_up(start, steps.drop_last());
        let l = start.after_all(steps.drop_last());
        match steps.last() {
            MemoryStep::Acquire { pool, bytes, counted } => {
                lemma_total_push(l.live(pool), bytes);
            },
            MemoryStep::TryAcquire { pool, bytes } => {
                lemma_total_push(l.live(pool), bytes);
            },
            MemoryStep::Drop { pool, at } => {
                if 0 <= at < l.live(pool).len() {
                    lemma_total_remove(l.live(pool), at);
                }
            },
            _ => {},
        }
    }
}

} // verus!
