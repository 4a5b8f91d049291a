//! Types that callers of the scheduler hand in and get back.
use std::collections::HashMap;
use std::sync::Arc;

use vstd::prelude::*;

use crate::time::{Duration, Instant};

verus! {

/// Stable fairness key used to assign work to shards and round-robin queues.
#[derive(Copy, Clone, Debug, PartialEq, Eq, Hash, Structural)]
pub struct TenantKey(pub u64);

impl From<u64> for TenantKey {
    fn from(value: u64) -> (key: TenantKey) {
        TenantKey(value)
    }
}

impl vstd::std_specs::convert::FromSpecImpl<u64> for TenantKey {
    open spec fn obeys_from_spec() -> bool {
        true
    }

    open spec fn from_spec(value: u64) -> TenantKey {
        TenantKey(value)
    }
}

impl TenantKey {
    /// Returns the raw tenant identifier.
    pub fn as_u64(&self) -> (raw: u64)
        ensures
            raw == self.0,
    {
        self.0
    }
}

/// Scheduling priority for a task.
#[derive(Copy, Clone, Debug, PartialEq, Eq, Hash, Structural)]
pub enum Priority {
    /// Highest scheduling priority.
    High,
    /// Default scheduling priority.
    Normal,
    /// Lowest scheduling priority.
    Low,
}

impl Default for Priority {
    fn default() -> (priority: Priority)
        ensures
            priority == Priority::Normal,
    {
        Priority::Normal
    }
}

impl Priority {
    /// Position of the priority in dispatch order.
    pub open spec fn rank(self) -> int {
        match self {
            Priority::High => 0,
            Priority::Normal => 1,
            Priority::Low => 2,
        }
    }

    /// Returns a fixed index for this priority (High=0, Normal=1, Low=2).
    pub fn index(self) -> (i: usize)
        ensures
            i == self.rank(),
            i < 3,
    {
        match self {
            Priority::High => 0,
            Priority::Normal => 1,
            Priority::Low => 2,
        }
    }

    /// Returns priorities in dequeue order.
    pub fn ordered() -> (order: [Priority; 3])
        ensures
            order@ == seq![Priority::High, Priority::Normal, Priority::Low],
            forall|i: int| 0 <= i < 3 ==> (#[trigger] order@[i]).rank() == i,
    {
        let order = [Priority::High, Priority::Normal, Priority::Low];
        assert(order@ =~= seq![Priority::High, Priority::Normal, Priority::Low]);
        order
    }
}

/// Enqueued unit of work.
#[derive(Clone, Debug)]
pub struct Task<T> {
    /// User payload.
    pub payload: T,
    /// Enqueue timestamp used to compute queue time metrics.
    pub enqueue_ts: Instant,
    /// Optional deadline for expiration before execution.
    pub deadline: Option<Instant>,
    /// Priority queue used for dispatch ordering.
    pub priority: Priority,
    /// Budget that the tenant spends when the task is handed out.
    pub cost: u64,
}

impl<T> Task<T> {
    /// Whether the deadline has passed at `now`. A task is still good at the very
    /// moment of its deadline.
    pub open spec fn expired(&self, now: Instant) -> bool {
        self.deadline matches Some(deadline) && now.nanos > deadline.nanos
    }

    /// Whether the deadline has passed at `now`.
    pub fn is_expired(&self, now: Instant) -> (b: bool)
        ensures
            b == self.expired(now),
    {
        match self.deadline {
            Some(deadline) => now.is_after(deadline),
            None => false,
        }
    }
}

/// Dynamic per-tenant quantum, to be implemented by users of the scheduler. It is asked
/// while the scheduler is not locked, so it may use the scheduler itself, and asked again
/// if another source has taken its place by the time its answer is to count. Only an
/// operation that has seen the source replaced `u64::MAX` times asks under the lock.
pub trait QuantumSource: Send + Sync {
    /// The source may name this quantum for this tenant: any, if it does not say more.
    open spec fn may_grant(&self, tenant: TenantKey, quantum: u64) -> bool {
        true
    }

    /// The quantum that `tenant` is to be granted per round.
    fn quantum(&self, tenant: TenantKey) -> (quantum: u64)
        ensures
            self.may_grant(tenant, quantum),
    ;
}

/// Shared handle to a [`QuantumSource`].
pub type QuantumProvider = Arc<dyn QuantumSource>;

/// Behavior when enqueue capacity limits are hit.
#[derive(Copy, Clone, Debug, PartialEq, Eq, Structural)]
pub enum BackpressurePolicy {
    /// Reject enqueue requests when limits are exceeded.
    Reject,
    /// Drop the oldest task from the same tenant and enqueue the new task.
    DropOldestPerTenant,
    /// Drop the newest task from the same tenant and enqueue the new task.
    DropNewestPerTenant,
    /// Wait for capacity up to `wait`, otherwise reject with timeout.
    Timeout {
        /// Longest time to wait.
        wait: Duration,
    },
}

/// Scheduler runtime configuration. Per-tenant settings are keyed by the raw
/// tenant identifier.
#[derive(Clone)]
pub struct SchedulerConfig {
    /// Number of shards used to partition tenant state.
    pub shards: usize,
    /// Global queue capacity across all tenants.
    pub max_global: usize,
    /// Maximum pending live tasks per tenant.
    ///
    /// Cancelled/expired entries are compacted lazily and are not intended to
    /// consume this limit once reclaimed.
    pub max_per_tenant: usize,
    /// Base quantum for tenants without overrides.
    pub quantum: u64,
    /// Static per-tenant quantum overrides.
    pub quantum_by_tenant: HashMap<u64, u64>,
    /// Dynamic per-tenant quantum provider.
    pub quantum_provider: Option<QuantumProvider>,
    /// Default backpressure policy.
    pub backpressure: BackpressurePolicy,
    /// Per-tenant backpressure policy overrides.
    pub backpressure_by_tenant: HashMap<u64, BackpressurePolicy>,
    /// Maximum number of tenants tracked in top-talker metrics.
    pub top_tenants_capacity: usize,
}

impl Default for SchedulerConfig {
    fn default() -> (config: SchedulerConfig)
        ensures
            config.shards == 1,
            config.max_global == 1000,
            config.max_per_tenant == 100,
            config.quantum == 10,
            config.quantum_by_tenant@ == Map::<u64, u64>::empty(),
            config.quantum_provider is None,
            config.backpressure == BackpressurePolicy::Reject,
            config.backpressure_by_tenant@ == Map::<u64, BackpressurePolicy>::empty(),
            config.top_tenants_capacity == 10,
    {
        SchedulerConfig {
            shards: 1,
            max_global: 1000,
            max_per_tenant: 100,
            quantum: 10,
            quantum_by_tenant: HashMap::new(),
            quantum_provider: None,
            backpressure: BackpressurePolicy::Reject,
            backpressure_by_tenant: HashMap::new(),
            top_tenants_capacity: 10,
        }
    }
}

/// Reason for enqueue rejection.
#[derive(Copy, Clone, Debug, PartialEq, Eq, Structural)]
pub enum EnqueueRejectReason {
    /// Rejected due to global queue capacity.
    GlobalFull,
    /// Rejected due to per-tenant queue capacity.
    TenantFull,
    /// Rejected because timeout elapsed while waiting for capacity.
    Timeout,
}

/// Result of an enqueue operation.
#[derive(Copy, Clone, Debug, PartialEq, Eq, Structural)]
pub enum EnqueueResult {
    /// Task was accepted.
    Enqueued,
    /// Task was rejected by backpressure policy.
    Rejected(EnqueueRejectReason),
    /// Scheduler is closed.
    Closed,
}

/// Opaque identifier for a pending task.
#[derive(Copy, Clone, Debug, PartialEq, Eq, Hash, Structural)]
pub struct TaskHandle(pub u64);

impl TaskHandle {
    /// Returns the raw numeric handle.
    pub fn as_u64(&self) -> (raw: u64)
        ensures
            raw == self.0,
    {
        self.0
    }
}

impl From<u64> for TaskHandle {
    fn from(value: u64) -> (handle: TaskHandle) {
        TaskHandle(value)
    }
}

impl vstd::std_specs::convert::FromSpecImpl<u64> for TaskHandle {
    open spec fn obeys_from_spec() -> bool {
        true
    }

    open spec fn from_spec(value: u64) -> TaskHandle {
        TaskHandle(value)
    }
}

/// Result of `enqueue_with_handle`.
#[derive(Copy, Clone, Debug, PartialEq, Eq, Structural)]
pub enum EnqueueWithHandleResult {
    /// Task was accepted and assigned a cancel handle.
    Enqueued(TaskHandle),
    /// Task was rejected by backpressure policy.
    Rejected(EnqueueRejectReason),
    /// Scheduler is closed.
    Closed,
}

impl EnqueueWithHandleResult {
    /// The result without its handle.
    pub open spec fn plain(self) -> EnqueueResult {
        match self {
            EnqueueWithHandleResult::Enqueued(_) => EnqueueResult::Enqueued,
            EnqueueWithHandleResult::Rejected(reason) => EnqueueResult::Rejected(reason),
            EnqueueWithHandleResult::Closed => EnqueueResult::Closed,
        }
    }

    /// Forgets the handle.
    pub fn without_handle(self) -> (r: EnqueueResult)
        ensures
            r == self.plain(),
    {
        match self {
            EnqueueWithHandleResult::Enqueued(_) => EnqueueResult::Enqueued,
            EnqueueWithHandleResult::Rejected(reason) => EnqueueResult::Rejected(reason),
            EnqueueWithHandleResult::Closed => EnqueueResult::Closed,
        }
    }
}

/// Scheduler shutdown mode.
#[derive(Copy, Clone, Debug, PartialEq, Eq, Structural)]
pub enum CloseMode {
    /// Stop accepting and wake blocked consumers immediately.
    Immediate,
    /// Stop accepting and drain queued tasks before closing.
    Drain,
}

/// Result of task cancellation.
#[derive(Copy, Clone, Debug, PartialEq, Eq, Structural)]
pub enum CancelResult {
    /// Task was found and cancelled.
    Cancelled,
    /// Task handle was not found.
    NotFound,
}

/// Result of a dequeue attempt.
#[derive(Clone, Debug)]
pub enum DequeueResult<T> {
    /// Returned task with its tenant identity.
    Task {
        /// Tenant whose turn it was.
        tenant: TenantKey,
        /// Task handed out.
        task: Task<T>,
    },
    /// No task available at the time of dequeue.
    Empty,
    /// Scheduler has been closed.
    Closed,
}

/// Single histogram bucket for queue time metrics.
#[derive(Copy, Clone, Debug, PartialEq, Eq, Structural)]
pub struct QueueTimeBucket {
    /// Upper bound of bucket in nanoseconds.
    pub le_ns: u64,
    /// Number of observations in this bucket.
    pub count: u64,
}

impl Default for QueueTimeBucket {
    fn default() -> (bucket: QueueTimeBucket)
        ensures
            bucket == (QueueTimeBucket { le_ns: 0, count: 0 }),
    {
        QueueTimeBucket { le_ns: 0, count: 0 }
    }
}

/// Tenant counter entry used in top-talker snapshots.
#[derive(Copy, Clone, Debug, PartialEq, Eq, Structural)]
pub struct TenantCount {
    /// Tenant identifier.
    pub tenant: TenantKey,
    /// Observed count for this tenant.
    pub count: u64,
}

/// Snapshot of scheduler metrics. The saturation of the queue is
/// `queue_len_estimate / max_global`.
#[derive(Clone, Debug)]
pub struct SchedulerStats {
    /// Total accepted enqueues.
    pub enqueued: u64,
    /// Total successfully dequeued tasks.
    pub dequeued: u64,
    /// Total tasks dropped because deadlines expired before dispatch.
    pub expired: u64,
    /// Total tasks dropped by reject/drop backpressure paths.
    pub dropped: u64,
    /// Total enqueue rejections due to global capacity.
    pub rejected_global: u64,
    /// Total enqueue rejections due to per-tenant capacity.
    pub rejected_tenant: u64,
    /// Total enqueue rejections caused by timeout.
    pub timeout_rejected: u64,
    /// Total tasks dropped by replacement policies.
    pub dropped_policy: u64,
    /// Current estimated live queue length.
    pub queue_len_estimate: u64,
    /// Configured global queue capacity.
    pub max_global: u64,
    /// Sum of queue time in nanoseconds for dequeued tasks.
    pub queue_time_sum_ns: u64,
    /// Number of queue time samples.
    pub queue_time_samples: u64,
    /// p95 queue time estimate in nanoseconds.
    pub queue_time_p95_ns: u64,
    /// p99 queue time estimate in nanoseconds.
    pub queue_time_p99_ns: u64,
    /// Histogram buckets for queue time.
    pub queue_time_histogram: Vec<QueueTimeBucket>,
    /// Top talkers by recent observed volume.
    pub top_tenants: Vec<TenantCount>,
}

impl Default for SchedulerStats {
    fn default() -> (stats: SchedulerStats)
        ensures
            stats.enqueued == 0,
            stats.dequeued == 0,
            stats.expired == 0,
            stats.dropped == 0,
            stats.rejected_global == 0,
            stats.rejected_tenant == 0,
            stats.timeout_rejected == 0,
            stats.dropped_policy == 0,
            stats.queue_len_estimate == 0,
            stats.max_global == 0,
            stats.queue_time_sum_ns == 0,
            stats.queue_time_samples == 0,
            stats.queue_time_p95_ns == 0,
            stats.queue_time_p99_ns == 0,
            stats.queue_time_histogram@.len() == 0,
            stats.top_tenants@.len() == 0,
    {
        SchedulerStats {
            enqueued: 0,
            dequeued: 0,
            expired: 0,
            dropped: 0,
            rejected_global: 0,
            rejected_tenant: 0,
            timeout_rejected: 0,
            dropped_policy: 0,
            queue_len_estimate: 0,
            max_global: 0,
            queue_time_sum_ns: 0,
            queue_time_samples: 0,
            queue_time_p95_ns: 0,
            queue_time_p99_ns: 0,
            queue_time_histogram: Vec::new(),
            top_tenants: Vec::new(),
        }
    }
}

} // verus!
