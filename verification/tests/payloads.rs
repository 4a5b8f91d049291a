//! Payloads that use their scheduler as they go: whatever becomes of a task, it is let go
//! while nobody is kept waiting.
use std::collections::HashMap;
use std::sync::atomic::{AtomicU64, Ordering};
use std::sync::{Arc, Weak};

use firq::bench::FifoQueue;
use firq::{
    BackpressurePolicy, CancelResult, DequeueResult, Duration, EnqueueRejectReason,
    EnqueueWithHandleResult, Instant, Priority, Scheduler, SchedulerConfig, Task, TaskHandle,
    TenantKey,
};

/// A payload that looks at its scheduler, and tries to cancel a task there, as it goes.
struct Curious {
    scheduler: Weak<Scheduler<Curious>>,
    gone: Arc<AtomicU64>,
}

impl Drop for Curious {
    fn drop(&mut self) {
        if let Some(scheduler) = self.scheduler.upgrade() {
            let _ = scheduler.stats();
            assert_eq!(scheduler.cancel(TaskHandle::from(u64::MAX)), CancelResult::NotFound);
        }
        self.gone.fetch_add(1, Ordering::SeqCst);
    }
}

struct Setting {
    scheduler: Arc<Scheduler<Curious>>,
    gone: Arc<AtomicU64>,
}

impl Setting {
    fn new(max_per_tenant: usize, policy: BackpressurePolicy) -> Setting {
        Setting {
            scheduler: Arc::new(Scheduler::new(SchedulerConfig {
                shards: 1,
                max_global: 100,
                max_per_tenant,
                quantum: 1,
                quantum_by_tenant: HashMap::new(),
                quantum_provider: None,
                backpressure: policy,
                backpressure_by_tenant: HashMap::new(),
                top_tenants_capacity: 0,
            })),
            gone: Arc::new(AtomicU64::new(0)),
        }
    }

    fn put(&self, deadline: Option<Instant>) -> EnqueueWithHandleResult {
        let task = Task {
            payload: Curious {
                scheduler: Arc::downgrade(&self.scheduler),
                gone: Arc::clone(&self.gone),
            },
            enqueue_ts: self.scheduler.now(),
            deadline,
            priority: Priority::Normal,
            cost: 1,
        };
        self.scheduler.enqueue_with_handle(TenantKey::from(1), task)
    }

    fn gone(&self) -> u64 {
        self.gone.load(Ordering::SeqCst)
    }
}

fn past() -> Option<Instant> {
    Some(Instant { nanos: -1 })
}

#[test]
fn expired_payloads_may_use_their_scheduler() {
    let setting = Setting::new(10, BackpressurePolicy::Reject);
    assert!(matches!(setting.put(past()), EnqueueWithHandleResult::Enqueued(_)));
    assert!(matches!(setting.put(past()), EnqueueWithHandleResult::Enqueued(_)));
    assert_eq!(setting.gone(), 0);
    assert!(matches!(setting.scheduler.try_dequeue(), DequeueResult::Empty));
    assert_eq!(setting.gone(), 2);
    assert_eq!(setting.scheduler.stats().expired, 2);
}

#[test]
fn cancelled_payloads_may_use_their_scheduler() {
    let setting = Setting::new(10, BackpressurePolicy::Reject);
    let handle = match setting.put(None) {
        EnqueueWithHandleResult::Enqueued(handle) => handle,
        other => panic!("expected a handle, got {:?}", other),
    };
    assert_eq!(setting.scheduler.cancel(handle), CancelResult::Cancelled);
    let result = setting.scheduler.dequeue_blocking_timeout(Duration::from_millis(5));
    assert!(matches!(result, DequeueResult::Empty));
    assert_eq!(setting.gone(), 1);
}

#[test]
fn compacted_payloads_may_use_their_scheduler() {
    let setting = Setting::new(1, BackpressurePolicy::Reject);
    assert!(matches!(setting.put(past()), EnqueueWithHandleResult::Enqueued(_)));
    assert!(matches!(setting.put(None), EnqueueWithHandleResult::Enqueued(_)));
    assert_eq!(setting.gone(), 1);
}

#[test]
fn replaced_payloads_may_use_their_scheduler() {
    for policy in [
        BackpressurePolicy::DropOldestPerTenant,
        BackpressurePolicy::DropNewestPerTenant,
    ] {
        let setting = Setting::new(1, policy);
        assert!(matches!(setting.put(None), EnqueueWithHandleResult::Enqueued(_)));
        assert!(matches!(setting.put(None), EnqueueWithHandleResult::Enqueued(_)));
        assert_eq!(setting.gone(), 1);
        assert_eq!(setting.scheduler.stats().dropped_policy, 1);
    }
}

#[test]
fn rejected_payloads_may_use_their_scheduler() {
    let setting = Setting::new(1, BackpressurePolicy::Reject);
    assert!(matches!(setting.put(None), EnqueueWithHandleResult::Enqueued(_)));
    assert!(matches!(
        setting.put(None),
        EnqueueWithHandleResult::Rejected(EnqueueRejectReason::TenantFull)
    ));
    assert_eq!(setting.gone(), 1);
    let wait = Duration::from_millis(5);
    let setting = Setting::new(1, BackpressurePolicy::Timeout { wait });
    assert!(matches!(setting.put(None), EnqueueWithHandleResult::Enqueued(_)));
    assert!(matches!(
        setting.put(None),
        EnqueueWithHandleResult::Rejected(EnqueueRejectReason::Timeout)
    ));
    assert_eq!(setting.gone(), 1);
}

#[test]
fn payloads_of_closed_schedulers_may_use_them() {
    for policy in [
        BackpressurePolicy::Reject,
        BackpressurePolicy::DropOldestPerTenant,
        BackpressurePolicy::Timeout { wait: Duration::from_millis(5) },
    ] {
        let setting = Setting::new(1, policy);
        setting.scheduler.close_drain();
        assert!(matches!(setting.put(None), EnqueueWithHandleResult::Closed));
        assert_eq!(setting.gone(), 1);
    }
}

/// A payload that looks at the queue that turned it away.
struct Turned {
    queue: Weak<FifoQueue<Turned>>,
}

impl Drop for Turned {
    fn drop(&mut self) {
        if let Some(queue) = self.queue.upgrade() {
            assert_eq!(queue.dropped(), 1);
        }
    }
}

#[test]
fn payloads_may_use_the_queue_that_turned_them_away() {
    let queue = Arc::new(FifoQueue::new(0));
    let task = Task {
        payload: Turned { queue: Arc::downgrade(&queue) },
        enqueue_ts: Instant { nanos: 0 },
        deadline: None,
        priority: Priority::Normal,
        cost: 1,
    };
    assert!(!queue.enqueue(task));
    assert_eq!(queue.dropped(), 1);
}
