//! Providers of quanta: when they are asked, whose answer counts, and that they may use
//! the scheduler themselves.
use std::collections::HashMap;
use std::sync::atomic::{AtomicU64, Ordering};
use std::sync::{Arc, OnceLock};

use firq::engine::{shared, Answer, Offered, SchedulerState};
use firq::model::{DropStrategy, Limits, Settings, TimedAttempt};
use firq::{
    BackpressurePolicy, CancelResult, DequeueResult, Duration, EnqueueRejectReason, EnqueueResult,
    EnqueueWithHandleResult, Instant, Priority, QuantumProvider, QuantumSource, Scheduler,
    SchedulerConfig, Task, TaskHandle, TenantKey,
};

const SETTINGS: Settings = Settings {
    shards: 1,
    limits: Limits { max_global: 2, max_per_tenant: 1 },
    quantum: 1,
    top_capacity: 0,
};

fn at(nanos: i128) -> Instant {
    Instant { nanos }
}

fn task(cost: u64) -> Task<u64> {
    Task {
        payload: 1,
        enqueue_ts: at(0),
        deadline: None,
        priority: Priority::Normal,
        cost,
    }
}

struct Always(u64);

impl QuantumSource for Always {
    fn quantum(&self, _tenant: TenantKey) -> u64 {
        self.0
    }
}

fn always(quantum: u64) -> Option<QuantumProvider> {
    Some(Arc::new(Always(quantum)))
}

fn state(provider: &Option<QuantumProvider>) -> SchedulerState<u64> {
    SchedulerState::new(1, 0, HashMap::new(), shared(provider))
}

/// Attempts that find nothing before a task comes.
fn empty_attempts(s: &mut SchedulerState<u64>) -> usize {
    for empty in 0..1_000 {
        if matches!(s.try_dequeue(at(1)), DequeueResult::Task { .. }) {
            return empty;
        }
    }
    panic!("nothing was handed out");
}

#[test]
fn unknown_tenants_are_asked_for_first() {
    let provider = always(10);
    let mut s = state(&provider);
    let tenant = TenantKey(3);
    let asked = match s.offer_reject(SETTINGS, tenant, task(30), &None, false, true, at(0)) {
        Offered::Ask(back, asked) => {
            assert_eq!(back.cost, 30);
            asked
        }
        Offered::Done(..) => panic!("the provider was not asked"),
    };
    assert_eq!(s.queue_len(), 0);
    assert!(!s.knows(3));
    let answer = Answer::of(&asked, tenant);
    assert_eq!(answer.as_ref().map(|a| a.quantum), Some(10));
    let current = s.is_current(&answer);
    assert!(current);
    match s.offer_reject(SETTINGS, tenant, task(30), &answer, current, true, at(0)) {
        Offered::Done(EnqueueWithHandleResult::Enqueued(_), rest) => {
            assert!(rest.wake);
            assert!(rest.removed.is_empty());
            assert!(rest.back.is_none());
        }
        _ => panic!("the task was not accepted"),
    }
    assert!(!s.clear().wake);
    assert_eq!(empty_attempts(&mut s), 3);
    // A tenant that is known keeps its quantum, without anyone being asked.
    match s.offer_drop(SETTINGS, tenant, task(30), DropStrategy::Oldest, &None, false, true, at(0)) {
        Offered::Done(EnqueueWithHandleResult::Enqueued(_), _) => {}
        _ => panic!("the task was not accepted"),
    }
    assert_eq!(empty_attempts(&mut s), 3);
}

#[test]
fn nobody_is_asked_without_need() {
    let tenant = TenantKey(3);
    // No provider: the base quantum.
    let mut s = state(&None);
    assert!(Answer::of(&None, tenant).is_none());
    assert!(matches!(
        s.offer_reject(SETTINGS, tenant, task(4), &None, false, true, at(0)),
        Offered::Done(EnqueueWithHandleResult::Enqueued(_), _)
    ));
    assert_eq!(empty_attempts(&mut s), 4);
    // A fixed quantum goes before the provider's.
    let mut s = state(&always(10));
    s.set_tenant_quantum(tenant, 2);
    assert!(matches!(
        s.offer_drop(SETTINGS, tenant, task(4), DropStrategy::Newest, &None, false, true, at(0)),
        Offered::Done(EnqueueWithHandleResult::Enqueued(_), _)
    ));
    assert_eq!(empty_attempts(&mut s), 2);
}

#[test]
fn the_answer_of_another_provider_does_not_count() {
    let tenant = TenantKey(3);
    let current = always(10);
    let other = always(10);
    let mut s = state(&current);
    let answer = Answer::of(&other, tenant);
    assert!(!s.is_current(&answer));
    assert!(!s.is_current(&None));
    assert!(matches!(
        s.offer_reject(SETTINGS, tenant, task(30), &answer, false, true, at(0)),
        Offered::Ask(..)
    ));
    // Without patience the provider is asked on the spot.
    let stale = Some(Answer { provider: other, quantum: 1 });
    assert!(matches!(
        s.offer_reject(SETTINGS, tenant, task(30), &stale, false, false, at(0)),
        Offered::Done(EnqueueWithHandleResult::Enqueued(_), _)
    ));
    assert_eq!(empty_attempts(&mut s), 3);
}

#[test]
fn a_timed_offer_is_accepted_waits_or_gives_up() {
    let tenant = TenantKey(3);
    let provider = always(5);
    let mut s = state(&provider);
    assert!(matches!(
        s.offer_timed(SETTINGS, tenant, task(5), &None, false, true, at(0), at(10)),
        Offered::Ask(..)
    ));
    let answer = Answer::of(&provider, tenant);
    let current = s.is_current(&answer);
    match s.offer_timed(SETTINGS, tenant, task(5), &answer, current, true, at(0), at(10)) {
        Offered::Done(TimedAttempt::Done(EnqueueWithHandleResult::Enqueued(_)), rest) => {
            assert!(rest.wake);
            assert!(rest.back.is_none());
        }
        _ => panic!("the task was not accepted"),
    }
    match s.offer_timed(SETTINGS, tenant, task(6), &None, false, true, at(4), at(10)) {
        Offered::Done(TimedAttempt::Wait(back, left), rest) => {
            assert_eq!(back.cost, 6);
            assert_eq!(left, Duration { nanos: 6 });
            assert!(!rest.wake);
            assert!(rest.back.is_none());
        }
        _ => panic!("there was time left"),
    }
    assert_eq!(s.stats(SETTINGS.limits).dropped, 0);
    match s.offer_timed(SETTINGS, tenant, task(6), &None, false, true, at(10), at(10)) {
        Offered::Done(TimedAttempt::Done(EnqueueWithHandleResult::Rejected(reason)), rest) => {
            assert_eq!(reason, EnqueueRejectReason::Timeout);
            assert!(!rest.wake);
            assert_eq!(rest.back.map(|task| task.cost), Some(6));
        }
        _ => panic!("time was up"),
    }
    let stats = s.stats(SETTINGS.limits);
    assert_eq!((stats.timeout_rejected, stats.dropped), (1, 1));
    assert_eq!((stats.rejected_tenant, stats.rejected_global), (0, 0));
    assert_eq!(s.queue_len(), 1);
}

#[test]
fn providers_are_asked_again_about_known_tenants() {
    let tenant = TenantKey(3);
    let mut s = state(&None);
    let _ = s.offer_reject(SETTINGS, tenant, task(12), &None, false, true, at(0));
    let second = always(4);
    let (previous, tenants) = s.install(shared(&second));
    assert!(previous.is_none());
    assert_eq!(tenants, vec![3]);
    let answer = Answer::of(&second, tenant);
    let current = s.is_current(&answer);
    assert!(s.grant(tenant, 1, &answer, current));
    assert_eq!(empty_attempts(&mut s), 3);
    // What another one says is not granted, nor anything to a tenant with a fixed quantum.
    let other = Answer::of(&always(9), tenant);
    let current = s.is_current(&other);
    assert!(!s.grant(tenant, 1, &other, current));
    s.set_tenant_quantum(tenant, 6);
    let current = s.is_current(&answer);
    assert!(current);
    assert!(!s.grant(tenant, 1, &answer, current));
    assert!(s.asked(tenant).is_none());
    assert!(s.asked(TenantKey(9)).is_some());
    let (previous, tenants) = s.install(shared(&second));
    assert!(previous.is_some());
    assert!(tenants.is_empty());
    let _ = s.offer_reject(SETTINGS, tenant, task(12), &None, false, true, at(0));
    assert_eq!(empty_attempts(&mut s), 2);
    assert!(s.release(tenant, 1).is_some());
}

fn config(provider: Option<QuantumProvider>) -> SchedulerConfig {
    SchedulerConfig {
        shards: 1,
        max_global: 10,
        max_per_tenant: 10,
        quantum: 1,
        quantum_by_tenant: HashMap::new(),
        quantum_provider: provider,
        backpressure: BackpressurePolicy::Reject,
        backpressure_by_tenant: HashMap::new(),
        top_tenants_capacity: 0,
    }
}

/// A provider that looks at its scheduler, and cancels a task there, whenever it is asked.
struct Curious {
    scheduler: OnceLock<Arc<Scheduler<u64>>>,
    asked: AtomicU64,
}

impl QuantumSource for Curious {
    fn quantum(&self, tenant: TenantKey) -> u64 {
        self.asked.fetch_add(1, Ordering::SeqCst);
        let scheduler = self.scheduler.get().expect("scheduler");
        let stats = scheduler.stats();
        assert_eq!(scheduler.cancel(TaskHandle::from(u64::MAX)), CancelResult::NotFound);
        tenant.as_u64() + stats.dropped
    }
}

#[test]
fn providers_may_use_their_scheduler() {
    for policy in [
        BackpressurePolicy::Reject,
        BackpressurePolicy::DropOldestPerTenant,
        BackpressurePolicy::Timeout { wait: Duration::from_millis(1) },
    ] {
        let provider = Arc::new(Curious { scheduler: OnceLock::new(), asked: AtomicU64::new(0) });
        let mut settings = config(Some(provider.clone()));
        settings.backpressure = policy;
        let scheduler = Arc::new(Scheduler::new(settings));
        assert!(provider.scheduler.set(Arc::clone(&scheduler)).is_ok());
        let tenant = TenantKey::from(4);
        assert!(matches!(scheduler.enqueue(tenant, task(8)), EnqueueResult::Enqueued));
        assert_eq!(provider.asked.load(Ordering::SeqCst), 1);
        assert!(matches!(scheduler.try_dequeue(), DequeueResult::Empty));
        assert!(matches!(scheduler.try_dequeue(), DequeueResult::Empty));
        assert!(matches!(scheduler.try_dequeue(), DequeueResult::Task { .. }));
        scheduler.set_tenant_quantum(tenant, 1);
        scheduler.clear_tenant_quantum(tenant);
        assert_eq!(provider.asked.load(Ordering::SeqCst), 2);
        scheduler.set_quantum_provider(Some(provider.clone()));
        assert_eq!(provider.asked.load(Ordering::SeqCst), 3);
        assert!(matches!(scheduler.enqueue(tenant, task(8)), EnqueueResult::Enqueued));
        assert_eq!(provider.asked.load(Ordering::SeqCst), 3);
        assert!(matches!(scheduler.try_dequeue(), DequeueResult::Empty));
        assert!(matches!(scheduler.try_dequeue(), DequeueResult::Empty));
        assert!(matches!(scheduler.try_dequeue(), DequeueResult::Task { .. }));
        scheduler.set_quantum_provider(None);
    }
}

/// A provider that gives its place to another when it is asked.
struct Retiring {
    scheduler: OnceLock<Arc<Scheduler<u64>>>,
}

impl QuantumSource for Retiring {
    fn quantum(&self, _tenant: TenantKey) -> u64 {
        let scheduler = self.scheduler.get().expect("scheduler");
        scheduler.set_quantum_provider(always(2));
        1_000
    }
}

#[test]
fn who_has_been_replaced_does_not_decide() {
    let provider = Arc::new(Retiring { scheduler: OnceLock::new() });
    let scheduler = Arc::new(Scheduler::new(config(Some(provider.clone()))));
    assert!(provider.scheduler.set(Arc::clone(&scheduler)).is_ok());
    assert!(matches!(
        scheduler.enqueue(TenantKey::from(4), task(8)),
        EnqueueResult::Enqueued
    ));
    for _ in 0..4 {
        assert!(matches!(scheduler.try_dequeue(), DequeueResult::Empty));
    }
    assert!(matches!(scheduler.try_dequeue(), DequeueResult::Task { .. }));
}

/// A provider that counts how often it is asked, and looks at its scheduler when it goes.
struct Counting {
    scheduler: OnceLock<Arc<Scheduler<u64>>>,
    asked: Arc<AtomicU64>,
    gone: Arc<AtomicU64>,
}

impl QuantumSource for Counting {
    fn quantum(&self, _tenant: TenantKey) -> u64 {
        self.asked.fetch_add(1, Ordering::SeqCst);
        4
    }
}

impl Drop for Counting {
    fn drop(&mut self) {
        let scheduler = self.scheduler.get().expect("scheduler");
        let _ = scheduler.stats();
        self.gone.fetch_add(1, Ordering::SeqCst);
    }
}

#[test]
fn nobody_is_asked_about_tenants_with_fixed_quanta() {
    let asked = Arc::new(AtomicU64::new(0));
    let gone = Arc::new(AtomicU64::new(0));
    let scheduler = Arc::new(Scheduler::new(config(None)));
    for tenant in 1..=3 {
        assert!(matches!(
            scheduler.enqueue(TenantKey::from(tenant), task(8)),
            EnqueueResult::Enqueued
        ));
    }
    scheduler.set_tenant_quantum(TenantKey::from(2), 8);
    let provider = Counting {
        scheduler: OnceLock::new(),
        asked: Arc::clone(&asked),
        gone: Arc::clone(&gone),
    };
    assert!(provider.scheduler.set(Arc::clone(&scheduler)).is_ok());
    scheduler.set_quantum_provider(Some(Arc::new(provider)));
    assert_eq!(asked.load(Ordering::SeqCst), 2);
    scheduler.clear_tenant_quantum(TenantKey::from(2));
    assert_eq!(asked.load(Ordering::SeqCst), 3);
    // A provider may use the scheduler as it goes, whoever takes its place.
    scheduler.set_quantum_provider(always(1));
    assert_eq!(gone.load(Ordering::SeqCst), 1);
    let last = Counting { scheduler: OnceLock::new(), asked, gone: Arc::clone(&gone) };
    assert!(last.scheduler.set(Arc::clone(&scheduler)).is_ok());
    scheduler.set_quantum_provider(Some(Arc::new(last)));
    scheduler.set_quantum_provider(None);
    assert_eq!(gone.load(Ordering::SeqCst), 2);
}
