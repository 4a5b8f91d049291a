//! Waiting, with a single thread: what ends a wait is time, or nothing has to be waited
//! for.
use std::collections::HashMap;
use std::sync::Arc;

use firq::engine::after_refusal;
use firq::model::Refused;
use firq::{
    after_empty, after_miss, BackpressurePolicy, CloseMode, DequeueResult, Duration,
    EnqueueRejectReason, EnqueueResult, Idle, Instant, Missed, Priority, QuantumSource, Scheduler,
    SchedulerConfig, Task, TenantKey, BACKOFF_SPINS,
};

fn config(policy: BackpressurePolicy) -> SchedulerConfig {
    SchedulerConfig {
        shards: 1,
        max_global: 1,
        max_per_tenant: 1,
        quantum: 1,
        quantum_by_tenant: HashMap::new(),
        quantum_provider: None,
        backpressure: policy,
        backpressure_by_tenant: HashMap::new(),
        top_tenants_capacity: 0,
    }
}

fn task(scheduler: &Scheduler<u64>, cost: u64) -> Task<u64> {
    Task {
        payload: 1,
        enqueue_ts: scheduler.now(),
        deadline: None,
        priority: Priority::Normal,
        cost,
    }
}

struct PerTenant;

impl QuantumSource for PerTenant {
    fn quantum(&self, tenant: TenantKey) -> u64 {
        tenant.as_u64() * 10
    }
}

#[test]
fn time_passes_on_the_clock() {
    let scheduler = Scheduler::<u64>::new(config(BackpressurePolicy::Reject));
    let before = scheduler.now();
    let _ = scheduler.dequeue_blocking_timeout(Duration::from_millis(5));
    let after = scheduler.now();
    assert!(before.nanos >= 0);
    assert!(after.nanos_since(before) >= 5_000_000);
}

#[test]
fn a_blocking_dequeue_earns_what_a_task_costs() {
    let scheduler = Scheduler::new(config(BackpressurePolicy::Reject));
    let tenant = TenantKey::from(1);
    // More empty attempts than are made in a row without a pause.
    let _ = scheduler.enqueue(tenant, task(&scheduler, 200));
    match scheduler.dequeue_blocking() {
        DequeueResult::Task { tenant: got, task } => {
            assert_eq!(got, tenant);
            assert_eq!(task.cost, 200);
        }
        other => panic!("expected a task, got {:?}", other),
    }
    assert_eq!(scheduler.stats().dequeued, 1);
}

#[test]
fn a_blocking_dequeue_gives_up_when_time_is_up() {
    let scheduler = Scheduler::<u64>::new(config(BackpressurePolicy::Reject));
    let start = scheduler.now();
    let result = scheduler.dequeue_blocking_timeout(Duration::from_millis(30));
    assert!(matches!(result, DequeueResult::Empty));
    let waited = scheduler.now().nanos_since(start);
    assert!(waited >= 30_000_000);
}

#[test]
fn a_blocking_dequeue_with_a_timeout_takes_what_is_there() {
    let scheduler = Scheduler::new(config(BackpressurePolicy::Reject));
    let _ = scheduler.enqueue(TenantKey::from(1), task(&scheduler, 3));
    let result = scheduler.dequeue_blocking_timeout(Duration::from_secs(10));
    assert!(matches!(result, DequeueResult::Task { .. }));
}

#[test]
fn blocking_dequeues_end_with_the_scheduler() {
    for mode in [CloseMode::Immediate, CloseMode::Drain] {
        let scheduler = Scheduler::<u64>::new(config(BackpressurePolicy::Reject));
        scheduler.close_with_mode(mode);
        assert!(matches!(scheduler.dequeue_blocking(), DequeueResult::Closed));
        let result = scheduler.dequeue_blocking_timeout(Duration::from_secs(10));
        assert!(matches!(result, DequeueResult::Closed));
    }
}

#[test]
fn an_enqueue_gives_up_when_time_is_up() {
    let policy = BackpressurePolicy::Timeout { wait: Duration::from_millis(20) };
    let scheduler = Scheduler::new(config(policy));
    let tenant = TenantKey::from(1);
    assert!(matches!(
        scheduler.enqueue(tenant, task(&scheduler, 1)),
        EnqueueResult::Enqueued
    ));
    let start = scheduler.now();
    let result = scheduler.enqueue(tenant, task(&scheduler, 1));
    assert!(matches!(
        result,
        EnqueueResult::Rejected(EnqueueRejectReason::Timeout)
    ));
    assert!(scheduler.now().nanos_since(start) >= 20_000_000);
    let stats = scheduler.stats();
    assert_eq!(stats.timeout_rejected, 1);
    assert_eq!(stats.dropped, 1);
    scheduler.close_drain();
    let result = scheduler.enqueue(tenant, task(&scheduler, 1));
    assert!(matches!(result, EnqueueResult::Closed));
}

#[test]
fn consumers_spin_then_pause_and_sleep_when_nothing_is_pending() {
    assert_eq!(after_empty(0, 0), Idle::Sleep);
    assert_eq!(after_empty(10, 0), Idle::Sleep);
    assert_eq!(after_empty(0, 1), Idle::Spin(1));
    assert_eq!(after_empty(BACKOFF_SPINS - 2, 1), Idle::Spin(BACKOFF_SPINS - 1));
    assert_eq!(after_empty(BACKOFF_SPINS - 1, 1), Idle::Pause);
    assert_eq!(after_empty(u32::MAX, 1), Idle::Pause);
}

fn at(nanos: i128) -> Instant {
    Instant { nanos }
}

fn nanos(nanos: u128) -> Duration {
    Duration { nanos }
}

#[test]
fn refusals_end_the_wait_when_time_is_up() {
    assert_eq!(after_refusal(at(5), at(5)), Refused::GiveUp);
    assert_eq!(after_refusal(at(6), at(5)), Refused::GiveUp);
    assert_eq!(after_refusal(at(4), at(10)), Refused::Wait(nanos(6)));
}

#[test]
fn consumers_with_a_deadline_wait_no_longer_than_that() {
    assert_eq!(after_miss(0, 0, at(5), at(5)), Missed::GiveUp);
    assert_eq!(after_miss(0, 1, at(6), at(5)), Missed::GiveUp);
    assert_eq!(after_miss(0, 0, at(4), at(10)), Missed::Wait(nanos(6)));
    assert_eq!(after_miss(0, 1, at(4), at(10)), Missed::Spin(1));
    let last = BACKOFF_SPINS - 1;
    assert_eq!(after_miss(last, 1, at(4), at(10)), Missed::Wait(nanos(6)));
    assert_eq!(after_miss(last, 1, at(0), at(1_000_000)), Missed::Wait(nanos(200_000)));
}

#[test]
fn without_time_to_wait_a_refusal_is_a_timeout() {
    let policy = BackpressurePolicy::Timeout { wait: Duration::from_millis(0) };
    let scheduler = Scheduler::new(config(policy));
    let tenant = TenantKey::from(1);
    assert!(matches!(
        scheduler.enqueue(tenant, task(&scheduler, 1)),
        EnqueueResult::Enqueued
    ));
    assert!(matches!(
        scheduler.enqueue(tenant, task(&scheduler, 1)),
        EnqueueResult::Rejected(EnqueueRejectReason::Timeout)
    ));
    let stats = scheduler.stats();
    assert_eq!((stats.enqueued, stats.queue_len_estimate), (1, 1));
    assert_eq!((stats.timeout_rejected, stats.dropped), (1, 1));
    assert_eq!((stats.rejected_tenant, stats.rejected_global), (0, 0));
}

/// Attempts that find nothing before the tenant's task of this cost comes.
fn empty_attempts(scheduler: &Scheduler<u64>, tenant: u64, cost: u64) -> usize {
    let _ = scheduler.enqueue(TenantKey::from(tenant), task(scheduler, cost));
    for empty in 0..1_000 {
        if matches!(scheduler.try_dequeue(), DequeueResult::Task { .. }) {
            return empty;
        }
    }
    panic!("nothing was handed out");
}

#[test]
fn quanta_come_from_the_configuration() {
    let mut config = config(BackpressurePolicy::Reject);
    config.quantum = 2;
    config.quantum_by_tenant.insert(1, 10);
    config.quantum_by_tenant.insert(2, 0);
    let scheduler = Scheduler::new(config);
    assert_eq!(empty_attempts(&scheduler, 1, 30), 3);
    assert_eq!(empty_attempts(&scheduler, 2, 30), 30);
    assert_eq!(empty_attempts(&scheduler, 3, 30), 15);
}

#[test]
fn the_provider_comes_from_the_configuration() {
    let mut config = config(BackpressurePolicy::Reject);
    config.quantum_by_tenant.insert(1, 15);
    config.quantum_provider = Some(Arc::new(PerTenant));
    let scheduler = Scheduler::new(config);
    assert_eq!(empty_attempts(&scheduler, 1, 30), 2);
    assert_eq!(empty_attempts(&scheduler, 3, 30), 1);
    assert_eq!(empty_attempts(&scheduler, 0, 30), 30);
}

#[test]
fn providers_are_asked_for_quanta() {
    let scheduler = Scheduler::new(config(BackpressurePolicy::Reject));
    let tenant = TenantKey::from(3);
    scheduler.set_quantum_provider(Some(Arc::new(PerTenant)));
    let _ = scheduler.enqueue(tenant, task(&scheduler, 30));
    assert!(matches!(scheduler.try_dequeue(), DequeueResult::Empty));
    assert!(matches!(scheduler.try_dequeue(), DequeueResult::Task { .. }));
    // A fixed quantum goes before the provider's.
    scheduler.set_tenant_quantum(tenant, 15);
    let _ = scheduler.enqueue(tenant, task(&scheduler, 30));
    assert!(matches!(scheduler.try_dequeue(), DequeueResult::Empty));
    assert!(matches!(scheduler.try_dequeue(), DequeueResult::Empty));
    assert!(matches!(scheduler.try_dequeue(), DequeueResult::Task { .. }));
    scheduler.clear_tenant_quantum(tenant);
    let _ = scheduler.enqueue(tenant, task(&scheduler, 30));
    assert!(matches!(scheduler.try_dequeue(), DequeueResult::Empty));
    assert!(matches!(scheduler.try_dequeue(), DequeueResult::Task { .. }));
    // Without provider the base quantum is granted.
    scheduler.set_quantum_provider(None);
    let _ = scheduler.enqueue(tenant, task(&scheduler, 3));
    for _ in 0..3 {
        assert!(matches!(scheduler.try_dequeue(), DequeueResult::Empty));
    }
    assert!(matches!(scheduler.try_dequeue(), DequeueResult::Task { .. }));
}

#[test]
fn a_scheduler_has_at_least_one_shard() {
    let mut config = config(BackpressurePolicy::Reject);
    config.shards = 0;
    let scheduler = Scheduler::new(config);
    let _ = scheduler.enqueue(TenantKey::from(9), task(&scheduler, 1));
    assert!(matches!(scheduler.dequeue_blocking(), DequeueResult::Task { .. }));
}

#[test]
fn policies_are_looked_up_by_tenant() {
    let mut config = config(BackpressurePolicy::Reject);
    config.backpressure_by_tenant.insert(4, BackpressurePolicy::DropOldestPerTenant);
    let scheduler = Scheduler::<u64>::new(config);
    assert_eq!(
        scheduler.backpressure_for(TenantKey::from(4)),
        BackpressurePolicy::DropOldestPerTenant
    );
    assert_eq!(
        scheduler.backpressure_for(TenantKey::from(5)),
        BackpressurePolicy::Reject
    );
}

#[test]
fn a_wait_can_be_left_to_the_signal() {
    let scheduler = Scheduler::new(config(BackpressurePolicy::Reject));
    let start = scheduler.now();
    assert!(scheduler.await_task_for(Duration::from_millis(20)).is_none());
    assert!(scheduler.now().nanos_since(start) >= 20_000_000);
    // What is pending is earned on the spot.
    let _ = scheduler.enqueue(TenantKey::from(1), task(&scheduler, 200));
    match scheduler.await_task_for(Duration::from_secs(10)) {
        Some(DequeueResult::Task { task, .. }) => assert_eq!(task.cost, 200),
        other => panic!("expected a task, got {:?}", other),
    }
    let _ = scheduler.enqueue(TenantKey::from(1), task(&scheduler, 300));
    match scheduler.await_task() {
        DequeueResult::Task { task, .. } => assert_eq!(task.cost, 300),
        other => panic!("expected a task, got {:?}", other),
    }
    scheduler.close();
    assert!(matches!(scheduler.await_task(), DequeueResult::Closed));
    assert!(matches!(
        scheduler.await_task_for(Duration::from_secs(10)),
        Some(DequeueResult::Closed)
    ));
}
