//! What asynchronous consumers share: the scheduler behind a counted reference, and
//! what to do with the outcome of a dequeue.
use std::sync::Arc;

use vstd::prelude::*;

use crate::api::{
    CancelResult, CloseMode, DequeueResult, EnqueueResult, EnqueueWithHandleResult, SchedulerStats,
    Task, TaskHandle, TenantKey,
};
use crate::scheduler::Scheduler;

verus! {

/// Shared scheduler for asynchronous use. None of its operations waits, apart from
/// an enqueue under the policy that does.
#[verifier::reject_recursive_types(T)]
pub struct AsyncScheduler<T> {
    inner: Arc<Scheduler<T>>,
}

impl<T> Clone for AsyncScheduler<T> {
    fn clone(&self) -> (other: AsyncScheduler<T>)
        ensures
            other == *self,
    {
        AsyncScheduler { inner: self.inner.clone() }
    }
}

impl<T> AsyncScheduler<T> {
    /// The scheduler that is shared.
    pub closed spec fn shared(&self) -> Scheduler<T> {
        *self.inner
    }

    /// Creates a new async wrapper over a shared core scheduler.
    pub fn new(inner: Arc<Scheduler<T>>) -> (s: AsyncScheduler<T>)
        ensures
            s.shared() == *inner,
    {
        AsyncScheduler { inner }
    }

    /// Returns the shared core scheduler.
    pub fn inner(&self) -> (inner: &Arc<Scheduler<T>>)
        ensures
            **inner == self.shared(),
    {
        &self.inner
    }

    /// Enqueues a task.
    pub fn enqueue(&self, tenant: TenantKey, task: Task<T>) -> (r: EnqueueResult)
        ensures
            self.shared().may_enqueue_plainly(tenant, task, r),
    {
        self.inner.enqueue(tenant, task)
    }

    /// Enqueues a task and returns a cancellation handle.
    pub fn enqueue_with_handle(&self, tenant: TenantKey, task: Task<T>) -> (r:
        EnqueueWithHandleResult)
        ensures
            self.shared().may_enqueue(tenant, task, r),
    {
        self.inner.enqueue_with_handle(tenant, task)
    }

    /// Non-blocking dequeue attempt.
    pub fn try_dequeue(&self) -> (r: DequeueResult<T>)
        ensures
            self.shared().may_dequeue(r),
    {
        self.inner.try_dequeue()
    }

    /// Attempts to cancel pending work by handle.
    pub fn cancel(&self, handle: TaskHandle) -> (r: CancelResult)
        ensures
            self.shared().may_cancel(handle, r),
    {
        self.inner.cancel(handle)
    }

    /// Returns scheduler metric snapshot.
    pub fn stats(&self) -> (stats: SchedulerStats)
        ensures
            self.shared().may_report(stats),
            stats.max_global == self.shared().settings().limits.max_global,
            stats.queue_len_estimate <= stats.max_global,
    {
        self.inner.stats()
    }

    /// Alias for [`AsyncScheduler::close_immediate`].
    pub fn close(&self)
        ensures
            self.shared().was_closed(CloseMode::Immediate),
    {
        self.inner.close_immediate();
    }

    /// Closes immediately.
    pub fn close_immediate(&self)
        ensures
            self.shared().was_closed(CloseMode::Immediate),
    {
        self.inner.close_immediate();
    }

    /// Closes in drain mode.
    pub fn close_drain(&self)
        ensures
            self.shared().was_closed(CloseMode::Drain),
    {
        self.inner.close_drain();
    }

    /// Closes using a specific mode.
    pub fn close_with_mode(&self, mode: CloseMode)
        ensures
            self.shared().was_closed(mode),
    {
        self.inner.close_with_mode(mode);
    }
}

/// Dequeued tenant/task pair.
pub struct DequeueItem<T> {
    /// Tenant selected by scheduler.
    pub tenant: TenantKey,
    /// Dequeued task.
    pub task: Task<T>,
}

/// What a consumer does with the outcome of a dequeue.
pub enum Received<T> {
    /// Serves this item.
    Item(DequeueItem<T>),
    /// Stops: nothing more will come.
    Finished,
    /// Tries again after letting others run.
    Again,
}

/// What a consumer does with the outcome of a dequeue.
pub fn received<T>(result: DequeueResult<T>) -> (r: Received<T>)
    ensures
        r == match result {
            DequeueResult::Task { tenant, task } => Received::Item(DequeueItem { tenant, task }),
            DequeueResult::Closed => Received::Finished,
            DequeueResult::Empty => Received::Again,
        },
{
    match result {
        DequeueResult::Task { tenant, task } => Received::Item(DequeueItem { tenant, task }),
        DequeueResult::Closed => Received::Finished,
        DequeueResult::Empty => Received::Again,
    }
}

/// Outcome of a dequeue that ran on another thread: a thread that did not come back
/// with one (`None`) counts as closed.
pub fn joined<T>(outcome: Option<DequeueResult<T>>) -> (r: DequeueResult<T>)
    ensures
        r == match outcome {
            Some(result) => result,
            None => DequeueResult::Closed,
        },
{
    match outcome {
        Some(result) => result,
        None => DequeueResult::Closed,
    }
}

/// Number of handlers, permits or buffered items for a requested limit: at least one.
pub fn at_least_one(limit: usize) -> (n: usize)
    ensures
        n == if limit == 0 {
            1
        } else {
            limit
        },
{
    if limit == 0 {
        1
    } else {
        limit
    }
}

} // verus!
