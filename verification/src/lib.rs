pub mod accounts;
mod api;
pub mod bench;
mod books;
pub mod capacity;
pub mod delivery;
pub mod engine;
pub mod fairness;
pub mod figures;
mod handoff;
pub mod history;
pub mod invariants;
pub mod keeping;
pub mod laws;
mod metrics;
pub mod model;
pub mod patience;
pub mod pipeline;
pub mod promises;
pub mod prometheus;
mod ring;
mod scheduler;
mod state;
mod sync;
pub mod talkers;
pub mod text;
mod time;
mod tower;
pub mod web;

pub use api::{
    BackpressurePolicy, CancelResult, CloseMode, DequeueResult, EnqueueRejectReason, EnqueueResult,
    EnqueueWithHandleResult, Priority, QuantumProvider, QuantumSource, QueueTimeBucket,
    SchedulerConfig, SchedulerStats, Task, TaskHandle, TenantCount, TenantKey,
};
pub use handoff::{at_least_one, joined, received, AsyncScheduler, DequeueItem, Received};
pub use scheduler::{after_empty, after_miss, Idle, Missed, Scheduler, BACKOFF_SPINS};
pub use time::{Clock, Duration, Instant};
pub use tower::{
    admission, default_rejection_mapper, in_flight_active, permit_task, Firq, FirqError,
    FirqHttpRejection, KeyExtractor, PendingCancelGuard,
};
