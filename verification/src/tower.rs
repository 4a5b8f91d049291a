//! Decisions of the request layer: how it is configured, what it answers a request
//! that is turned away, and when a pending request is given up.
use std::sync::Arc;

use vstd::prelude::*;

use crate::api::{
    BackpressurePolicy, EnqueueRejectReason, EnqueueWithHandleResult, Priority, SchedulerConfig,
    Task, TaskHandle, TenantKey,
};
use crate::handoff::{at_least_one, AsyncScheduler};
use crate::model::StateView;
use crate::scheduler::Scheduler;
use crate::text;
use crate::text::append_decimal;
use crate::time::Instant;

verus! {

/// Structured HTTP rejection payload produced by the layer.
#[derive(Clone, Debug)]
pub struct FirqHttpRejection {
    /// HTTP status code.
    pub status: u16,
    /// Stable machine-readable error code.
    pub code: &'static str,
    /// Human-readable error message.
    pub message: &'static str,
    /// Underlying scheduling rejection reason.
    pub reason: EnqueueRejectReason,
}

/// Default mapping from scheduler rejection reasons to HTTP responses.
pub fn default_rejection_mapper(reason: EnqueueRejectReason) -> (r: FirqHttpRejection)
    ensures
        r.reason == reason,
        match reason {
            EnqueueRejectReason::TenantFull => r.status == 429 && r.code@ == "tenant_full"@
                && r.message@ == "tenant queue limit reached"@,
            EnqueueRejectReason::GlobalFull => r.status == 503 && r.code@ == "global_full"@
                && r.message@ == "scheduler global capacity reached"@,
            EnqueueRejectReason::Timeout => r.status == 503 && r.code@ == "timeout"@ && r.message@
                == "request timed out waiting for scheduler capacity"@,
        },
{
    match reason {
        EnqueueRejectReason::TenantFull => FirqHttpRejection {
            status: 429,
            code: "tenant_full",
            message: "tenant queue limit reached",
            reason,
        },
        EnqueueRejectReason::GlobalFull => FirqHttpRejection {
            status: 503,
            code: "global_full",
            message: "scheduler global capacity reached",
            reason,
        },
        EnqueueRejectReason::Timeout => FirqHttpRejection {
            status: 503,
            code: "timeout",
            message: "request timed out waiting for scheduler capacity",
            reason,
        },
    }
}

/// Layer/service error type.
#[derive(Debug)]
pub enum FirqError<E> {
    /// Error returned by the wrapped inner service.
    Service(E),
    /// Request rejected by scheduler policy.
    Rejected(FirqHttpRejection),
    /// Scheduler has been closed.
    Closed,
    /// Failed waiting for permit (expired/dropped/cancelled).
    PermitError,
}

/// Name of a reason.
pub open spec fn reason_text(reason: EnqueueRejectReason) -> Seq<char> {
    match reason {
        EnqueueRejectReason::GlobalFull => "GlobalFull"@,
        EnqueueRejectReason::TenantFull => "TenantFull"@,
        EnqueueRejectReason::Timeout => "Timeout"@,
    }
}

/// Name of a reason.
fn reason_name(reason: EnqueueRejectReason) -> (name: &'static str)
    ensures
        name@ == reason_text(reason),
{
    match reason {
        EnqueueRejectReason::GlobalFull => "GlobalFull",
        EnqueueRejectReason::TenantFull => "TenantFull",
        EnqueueRejectReason::Timeout => "Timeout",
    }
}

impl FirqError<String> {
    /// Text of the error, the inner error being given as text.
    pub open spec fn text(self) -> Seq<char> {
        match self {
            FirqError::Service(e) => "Service error: "@ + e@,
            FirqError::Rejected(rejection) => "Request rejected: status="@ + text::decimal(
                rejection.status as nat,
            ) + " code="@ + rejection.code@ + " reason="@ + reason_text(rejection.reason),
            FirqError::Closed => "Scheduler closed"@,
            FirqError::PermitError => "Permit acquisition failed (task expired or dropped)"@,
        }
    }

    /// Text of the error, the inner error being given as text.
    pub fn message(&self) -> (m: String)
        ensures
            m@ == self.text(),
    {
        let mut m = String::new();
        match self {
            FirqError::Service(e) => {
                m.append("Service error: ");
                m.append(e.as_str());
            },
            FirqError::Rejected(rejection) => {
                m.append("Request rejected: status=");
                append_decimal(&mut m, rejection.status as u64);
                m.append(" code=");
                m.append(rejection.code);
                m.append(" reason=");
                m.append(reason_name(rejection.reason));
            },
            FirqError::Closed => {
                m.append("Scheduler closed");
            },
            FirqError::PermitError => {
                m.append("Permit acquisition failed (task expired or dropped)");
            },
        }
        assert(m@ =~= self.text());
        m
    }
}

/// Finds the tenant of a request. Implemented by users of the layer; any function
/// from request to tenant will do.
pub trait KeyExtractor<Request>: Clone {
    /// The extractor can be used on this request.
    spec fn accepts(&self, req: &Request) -> bool;

    /// The extractor may give this tenant for this request.
    spec fn may_give(&self, req: &Request, key: TenantKey) -> bool;

    /// Extracts a tenant key from an incoming request.
    fn extract(&self, req: &Request) -> (key: TenantKey)
        requires
            self.accepts(req),
        ensures
            self.may_give(req, key),
    ;
}

impl<F, Request> KeyExtractor<Request> for F where F: Fn(&Request) -> TenantKey + Clone {
    open spec fn accepts(&self, req: &Request) -> bool {
        call_requires(*self, (req,))
    }

    open spec fn may_give(&self, req: &Request, key: TenantKey) -> bool {
        call_ensures(*self, (req,), key)
    }

    fn extract(&self, req: &Request) -> (key: TenantKey) {
        (self)(req)
    }
}

/// Builder of the layer's configuration.
pub struct Firq {
    config: SchedulerConfig,
    in_flight_limit: Option<usize>,
}

impl Default for Firq {
    fn default() -> (f: Firq)
        ensures
            f.settings().shards == 1,
            f.settings().max_global == 1000,
            f.settings().max_per_tenant == 100,
            f.settings().quantum == 10,
            f.settings().backpressure == BackpressurePolicy::Reject,
            f.settings().quantum_by_tenant@ == Map::<u64, u64>::empty(),
            f.settings().quantum_provider is None,
            f.settings().backpressure_by_tenant@ == Map::<u64, BackpressurePolicy>::empty(),
            f.settings().top_tenants_capacity == 10,
            f.requested_limit() is None,
    {
        Firq { config: SchedulerConfig::default(), in_flight_limit: None }
    }
}

impl Firq {
    /// Configuration of the scheduler so far.
    pub closed spec fn settings(&self) -> SchedulerConfig {
        self.config
    }

    /// Limit of concurrent requests so far.
    pub closed spec fn requested_limit(&self) -> Option<usize> {
        self.in_flight_limit
    }

    /// A builder with the default configuration.
    pub fn new() -> (f: Firq)
        ensures
            f.settings().shards == 1,
            f.settings().max_global == 1000,
            f.settings().max_per_tenant == 100,
            f.settings().quantum == 10,
            f.settings().backpressure == BackpressurePolicy::Reject,
            f.settings().quantum_by_tenant@ == Map::<u64, u64>::empty(),
            f.settings().quantum_provider is None,
            f.settings().backpressure_by_tenant@ == Map::<u64, BackpressurePolicy>::empty(),
            f.settings().top_tenants_capacity == 10,
            f.requested_limit() is None,
    {
        Firq::default()
    }

    /// Sets the number of shards.
    pub fn with_shards(self, shards: usize) -> (f: Firq)
        ensures
            f.settings() == (SchedulerConfig { shards, ..self.settings() }),
            f.requested_limit() == self.requested_limit(),
    {
        Firq { config: SchedulerConfig { shards, ..self.config }, ..self }
    }

    /// Sets the most tasks that may be pending over all tenants.
    pub fn with_max_global(self, max: usize) -> (f: Firq)
        ensures
            f.settings() == (SchedulerConfig { max_global: max, ..self.settings() }),
            f.requested_limit() == self.requested_limit(),
    {
        Firq { config: SchedulerConfig { max_global: max, ..self.config }, ..self }
    }

    /// Sets the most tasks that may be pending for one tenant.
    pub fn with_max_per_tenant(self, max: usize) -> (f: Firq)
        ensures
            f.settings() == (SchedulerConfig { max_per_tenant: max, ..self.settings() }),
            f.requested_limit() == self.requested_limit(),
    {
        Firq { config: SchedulerConfig { max_per_tenant: max, ..self.config }, ..self }
    }

    /// Sets the base quantum.
    pub fn with_quantum(self, quantum: u64) -> (f: Firq)
        ensures
            f.settings() == (SchedulerConfig { quantum, ..self.settings() }),
            f.requested_limit() == self.requested_limit(),
    {
        Firq { config: SchedulerConfig { quantum, ..self.config }, ..self }
    }

    /// Sets the policy for full queues.
    pub fn with_backpressure(self, policy: BackpressurePolicy) -> (f: Firq)
        ensures
            f.settings() == (SchedulerConfig { backpressure: policy, ..self.settings() }),
            f.requested_limit() == self.requested_limit(),
    {
        Firq { config: SchedulerConfig { backpressure: policy, ..self.config }, ..self }
    }

    /// Sets the most requests that may run at a time.
    pub fn with_in_flight_limit(self, limit: usize) -> (f: Firq)
        ensures
            f.settings() == self.settings(),
            f.requested_limit() == Some(limit),
    {
        Firq { in_flight_limit: Some(limit), ..self }
    }

    /// The most requests that may run at a time: what was asked for, or else as many
    /// as may be pending; at least one.
    pub fn in_flight_limit(&self) -> (n: usize)
        ensures
            n == ({
                let limit = match self.requested_limit() {
                    Some(limit) => limit,
                    None => self.settings().max_global,
                };
                if limit == 0 {
                    1
                } else {
                    limit
                }
            }),
    {
        match self.in_flight_limit {
            Some(limit) => at_least_one(limit),
            None => at_least_one(self.config.max_global),
        }
    }

    /// A scheduler with the configuration.
    pub fn scheduler<T>(self) -> (s: AsyncScheduler<T>)
        ensures
            s.shared().settings().limits.max_global == self.settings().max_global,
            s.shared().settings().limits.max_per_tenant == self.settings().max_per_tenant,
            s.shared().settings().quantum == self.settings().quantum,
            s.shared().settings().top_capacity == self.settings().top_tenants_capacity,
            s.shared().settings().shards == if self.settings().shards == 0 {
                1
            } else {
                self.settings().shards
            },
            s.shared().start() == StateView::<T>::initial(
                s.shared().settings().shards as nat,
                self.settings().top_tenants_capacity as nat,
                self.settings().quantum_by_tenant@,
                self.settings().quantum_provider,
            ),
            forall|t: TenantKey| #[trigger]
                s.shared().policy(t) == if self.settings().backpressure_by_tenant@.contains_key(t.0) {
                    self.settings().backpressure_by_tenant@[t.0]
                } else {
                    self.settings().backpressure
                },
    {
        AsyncScheduler::new(Arc::new(Scheduler::new(self.config)))
    }
}

/// Requests that run at the moment, out of `limit` permits of which so many are
/// available.
pub fn in_flight_active(limit: usize, available: usize) -> (n: usize)
    ensures
        n == if available >= limit {
            0
        } else {
            limit - available
        },
{
    limit.saturating_sub(available)
}

/// The task by which a request waits for its turn.
pub fn permit_task<P>(payload: P, now: Instant, deadline: Option<Instant>) -> (task: Task<P>)
    ensures
        task == (Task { payload, enqueue_ts: now, deadline, priority: Priority::Normal, cost: 1 }),
{
    Task { payload, enqueue_ts: now, deadline, priority: Priority::Normal, cost: 1 }
}

/// What becomes of a request whose task was offered to the scheduler: it waits for
/// its turn under a handle, or is refused. Rejections go through the mapper.
pub fn admission<E, M: Fn(EnqueueRejectReason) -> FirqHttpRejection>(
    result: EnqueueWithHandleResult,
    mapper: &M,
) -> (r: Result<TaskHandle, FirqError<E>>)
    requires
        forall|reason: EnqueueRejectReason| #[trigger] call_requires(*mapper, (reason,)),
    ensures
        match result {
            EnqueueWithHandleResult::Enqueued(handle) => r == Ok::<TaskHandle, FirqError<E>>(handle),
            EnqueueWithHandleResult::Rejected(reason) => r matches Err(
                FirqError::Rejected(rejection),
            ) && call_ensures(*mapper, (reason,), rejection),
            EnqueueWithHandleResult::Closed => r == Err::<TaskHandle, FirqError<E>>(
                FirqError::Closed,
            ),
        },
{
    match result {
        EnqueueWithHandleResult::Enqueued(handle) => Ok(handle),
        EnqueueWithHandleResult::Rejected(reason) => Err(FirqError::Rejected(mapper(reason))),
        EnqueueWithHandleResult::Closed => Err(FirqError::Closed),
    }
}

/// Memory of a request that waits for its turn: what to cancel if the client goes
/// away before it comes.
#[derive(Debug)]
pub struct PendingCancelGuard {
    handle: Option<TaskHandle>,
}

impl PendingCancelGuard {
    /// What is still to be cancelled.
    pub closed spec fn armed(&self) -> Option<TaskHandle> {
        self.handle
    }

    /// The request waits under this handle.
    pub fn new(handle: TaskHandle) -> (g: PendingCancelGuard)
        ensures
            g.armed() == Some(handle),
    {
        PendingCancelGuard { handle: Some(handle) }
    }

    /// The turn has come: there is nothing to cancel any more.
    pub fn disarm(&mut self)
        ensures
            final(self).armed() is None,
    {
        self.handle = None;
    }

    /// The request is over: says what is to be cancelled, once.
    pub fn take(&mut self) -> (handle: Option<TaskHandle>)
        ensures
            handle == old(self).armed(),
            final(self).armed() is None,
    {
        self.handle.take()
    }
}

} // verus!
