//! What is promised of the scheduler as a whole, on given values. Time is a number here,
//! so that every outcome is settled.
use std::collections::HashMap;

use firq::engine::{effective_quantum, SchedulerState};
use firq::model::{DropStrategy, EnqueueAttempt, Limits};
use firq::{
    CancelResult, CloseMode, DequeueResult, EnqueueRejectReason, EnqueueWithHandleResult, Instant,
    Priority, Task, TaskHandle, TenantKey,
};

const WIDE: Limits = Limits { max_global: 1_000, max_per_tenant: 1_000 };

fn at(nanos: i128) -> Instant {
    Instant { nanos }
}

fn state() -> SchedulerState<u64> {
    SchedulerState::new(1, 4, HashMap::new(), None)
}

fn task(payload: u64) -> Task<u64> {
    Task {
        payload,
        enqueue_ts: at(0),
        deadline: None,
        priority: Priority::Normal,
        cost: 1,
    }
}

fn put(s: &mut SchedulerState<u64>, limits: Limits, tenant: u64, task: Task<u64>) -> TaskHandle {
    match s.enqueue_reject_with_handle(limits, TenantKey(tenant), task, 1, at(0)) {
        EnqueueWithHandleResult::Enqueued(handle) => handle,
        other => panic!("expected a handle, got {:?}", other),
    }
}

/// Tenant and payload of the next task, and the attempts before it that found nothing.
fn next(s: &mut SchedulerState<u64>, now: Instant) -> (u64, u64, usize) {
    for empty in 0..1_000 {
        match s.try_dequeue(now) {
            DequeueResult::Task { tenant, task } => return (tenant.as_u64(), task.payload, empty),
            DequeueResult::Empty => {}
            DequeueResult::Closed => panic!("closed"),
        }
    }
    panic!("nothing was handed out");
}

#[test]
fn limits_hold_in_every_state() {
    let limits = Limits { max_global: 3, max_per_tenant: 2 };
    let mut s = state();
    let mut results = Vec::new();
    for (tenant, payload) in [(1, 1), (1, 2), (1, 3), (2, 4), (2, 5)] {
        results.push(s.enqueue_reject_with_handle(limits, TenantKey(tenant), task(payload), 1, at(0)));
        assert!(s.queue_len() <= 3);
    }
    assert!(matches!(results[1], EnqueueWithHandleResult::Enqueued(_)));
    assert!(matches!(
        results[2],
        EnqueueWithHandleResult::Rejected(EnqueueRejectReason::TenantFull)
    ));
    assert!(matches!(results[3], EnqueueWithHandleResult::Enqueued(_)));
    assert!(matches!(
        results[4],
        EnqueueWithHandleResult::Rejected(EnqueueRejectReason::GlobalFull)
    ));
    let stats = s.stats(limits);
    assert_eq!(stats.rejected_tenant, 1);
    assert_eq!(stats.rejected_global, 1);
    assert_eq!(stats.dropped, 2);
    assert_eq!(stats.max_global, 3);
}

#[test]
fn first_in_first_out_within_a_lane() {
    let mut s = state();
    for payload in 0..5 {
        put(&mut s, WIDE, 7, task(payload));
    }
    for payload in 0..5 {
        let (tenant, got, _) = next(&mut s, at(1));
        assert_eq!((tenant, got), (7, payload));
    }
    assert!(matches!(s.try_dequeue(at(1)), DequeueResult::Empty));
}

#[test]
fn expired_tasks_are_passed_over() {
    let mut s = state();
    let mut late = task(1);
    late.deadline = Some(at(50));
    let mut just = task(2);
    just.deadline = Some(at(100));
    put(&mut s, WIDE, 1, late);
    put(&mut s, WIDE, 1, just);
    put(&mut s, WIDE, 1, task(3));
    // A deadline is met at the very moment that it names.
    assert_eq!(next(&mut s, at(100)).1, 2);
    assert_eq!(next(&mut s, at(101)).1, 3);
    let stats = s.stats(WIDE);
    assert_eq!((stats.expired, stats.dequeued, stats.queue_len_estimate), (1, 2, 0));
}

#[test]
fn each_task_is_handed_out_once() {
    let mut s = SchedulerState::new(3, 4, HashMap::new(), None);
    for payload in 0..30 {
        put(&mut s, WIDE, payload % 5, task(payload));
    }
    let mut seen: Vec<u64> = (0..30).map(|_| next(&mut s, at(1)).1).collect();
    seen.sort_unstable();
    assert_eq!(seen, (0..30).collect::<Vec<u64>>());
    for _ in 0..50 {
        assert!(matches!(s.try_dequeue(at(1)), DequeueResult::Empty));
    }
}

#[test]
fn cancelled_tasks_are_not_handed_out() {
    let mut s = state();
    put(&mut s, WIDE, 1, task(1));
    let second = put(&mut s, WIDE, 1, task(2));
    put(&mut s, WIDE, 1, task(3));
    assert_eq!(s.queue_len(), 3);
    assert_eq!(s.cancel(second), CancelResult::Cancelled);
    assert_eq!(s.queue_len(), 2);
    assert_eq!(s.cancel(second), CancelResult::NotFound);
    assert_eq!(next(&mut s, at(1)).1, 1);
    assert_eq!(next(&mut s, at(1)).1, 3);
    assert_eq!(s.queue_len(), 0);
}

#[test]
fn cancelling_the_unknown_changes_nothing() {
    let mut s = state();
    let handle = put(&mut s, WIDE, 1, task(1));
    assert!(s.clear().wake);
    assert_eq!(s.cancel(TaskHandle::from(99)), CancelResult::NotFound);
    assert!(!s.clear().wake);
    assert_eq!(s.queue_len(), 1);
    assert_eq!(next(&mut s, at(1)).1, 1);
    assert_eq!(s.cancel(handle), CancelResult::NotFound);
}

#[test]
fn handles_are_numbered_upwards() {
    let mut s = state();
    for expected in 1..=5 {
        assert_eq!(put(&mut s, WIDE, expected % 2, task(0)).as_u64(), expected);
    }
}

#[test]
fn counters_add_up_over_a_mixed_run() {
    let limits = Limits { max_global: 6, max_per_tenant: 3 };
    let mut s = state();
    let mut doomed = task(1);
    doomed.deadline = Some(at(5));
    put(&mut s, limits, 1, doomed);
    put(&mut s, limits, 1, task(2));
    let third = put(&mut s, limits, 1, task(3));
    // Full: the oldest live one makes room.
    let r = s.enqueue_drop_with_handle(limits, TenantKey(1), task(4), DropStrategy::Oldest, 1, at(1));
    assert!(matches!(r, EnqueueWithHandleResult::Enqueued(_)));
    put(&mut s, limits, 2, task(5));
    let mut late = task(6);
    late.deadline = Some(at(5));
    put(&mut s, limits, 2, late);
    assert_eq!(s.cancel(third), CancelResult::Cancelled);
    s.record_reject(EnqueueRejectReason::Timeout);
    let mut served = 0;
    for _ in 0..20 {
        if matches!(s.try_dequeue(at(10)), DequeueResult::Task { .. }) {
            served += 1;
        }
    }
    let stats = s.stats(limits);
    assert_eq!(stats.enqueued, 6);
    assert_eq!(stats.dequeued, served);
    assert_eq!(stats.dropped_policy, 1);
    assert_eq!(stats.expired, 1);
    assert_eq!(stats.timeout_rejected, 1);
    assert_eq!(
        stats.enqueued,
        stats.queue_len_estimate + stats.dequeued + stats.expired + stats.dropped_policy + 1
    );
    assert_eq!(
        stats.dropped,
        stats.rejected_global + stats.rejected_tenant + stats.timeout_rejected + stats.dropped_policy
    );
    assert_eq!(stats.queue_time_samples, stats.dequeued);
    let sampled: u64 = stats.queue_time_histogram.iter().map(|b| b.count).sum();
    assert_eq!(sampled, stats.dequeued);
}

#[test]
fn shutdown_does_not_go_back() {
    let mut s = state();
    put(&mut s, WIDE, 1, task(1));
    s.set_shutdown_mode(CloseMode::Immediate);
    s.set_shutdown_mode(CloseMode::Drain);
    assert!(matches!(s.try_dequeue(at(1)), DequeueResult::Closed));
    assert_eq!(s.queue_len(), 1);
    assert!(s.is_finished());
    assert!(!s.is_accepting());
}

#[test]
fn closed_schedulers_turn_everything_away() {
    for mode in [CloseMode::Drain, CloseMode::Immediate] {
        let mut s = state();
        s.set_shutdown_mode(mode);
        let r = s.enqueue_reject_with_handle(WIDE, TenantKey(1), task(1), 1, at(0));
        assert!(matches!(r, EnqueueWithHandleResult::Closed));
        let r = s.enqueue_drop_with_handle(WIDE, TenantKey(1), task(1), DropStrategy::Newest, 1, at(0));
        assert!(matches!(r, EnqueueWithHandleResult::Closed));
        let r = s.enqueue_try_reject(WIDE, TenantKey(1), task(1), 1, at(0));
        assert!(matches!(r, EnqueueAttempt::Closed(_)));
        assert!(!s.knows(1));
        assert_eq!(s.stats(WIDE).dropped, 0);
    }
}

#[test]
fn draining_ends_with_the_last_pending_task() {
    let mut s = state();
    assert!(matches!(s.try_dequeue(at(0)), DequeueResult::Empty));
    put(&mut s, WIDE, 1, task(1));
    let second = put(&mut s, WIDE, 1, task(2));
    s.set_shutdown_mode(CloseMode::Drain);
    assert_eq!(next(&mut s, at(1)).1, 1);
    assert!(!s.is_finished());
    s.cancel(second);
    assert!(matches!(s.try_dequeue(at(1)), DequeueResult::Closed));
    assert!(s.is_finished());
}

#[test]
fn more_urgent_tasks_go_first() {
    let mut s = state();
    for (payload, priority) in [(1, Priority::Low), (2, Priority::Normal), (3, Priority::High)] {
        let mut offered = task(payload);
        offered.priority = priority;
        put(&mut s, WIDE, payload, offered);
    }
    let order: Vec<u64> = (0..3).map(|_| next(&mut s, at(1)).1).collect();
    assert_eq!(order, vec![3, 2, 1]);
}

#[test]
fn a_cost_is_earned_by_quanta() {
    let mut s = state();
    let mut heavy = task(1);
    heavy.cost = 3;
    put(&mut s, WIDE, 1, heavy);
    // Three turns earn one each; the fourth pays.
    assert_eq!(next(&mut s, at(1)), (1, 1, 3));
    let mut free = task(2);
    free.cost = 0;
    put(&mut s, WIDE, 1, free);
    assert_eq!(next(&mut s, at(1)), (1, 2, 0));
}

#[test]
fn turns_go_round_the_tenants() {
    let mut s = state();
    for payload in 0..2 {
        for tenant in 1..=3 {
            put(&mut s, WIDE, tenant, task(payload));
        }
    }
    let order: Vec<u64> = (0..6).map(|_| next(&mut s, at(1)).0).collect();
    assert_eq!(order, vec![1, 2, 3, 1, 2, 3]);
}

#[test]
fn a_quiet_tenant_is_not_set_back_by_a_noisy_one() {
    let mut s = state();
    for payload in 0..50 {
        put(&mut s, WIDE, 1, task(payload));
    }
    put(&mut s, WIDE, 2, task(100));
    assert_eq!(next(&mut s, at(1)).0, 1);
    // More work and new tenants come in behind it.
    for payload in 50..90 {
        put(&mut s, WIDE, 1, task(payload));
        put(&mut s, WIDE, 3 + payload, task(payload));
    }
    s.set_tenant_quantum(TenantKey(1), 1_000);
    assert_eq!(next(&mut s, at(1)), (2, 100, 0));
}

#[test]
fn shards_take_turns() {
    let mut s = SchedulerState::new(2, 4, HashMap::new(), None);
    for payload in 0..4 {
        put(&mut s, WIDE, payload % 2, task(payload));
    }
    let order: Vec<u64> = (0..4).map(|_| next(&mut s, at(1)).0).collect();
    assert_eq!(order, vec![0, 1, 0, 1]);
}

#[test]
fn waiting_threads_are_told_what_matters() {
    let mut s = state();
    assert!(!s.clear().wake);
    let first = put(&mut s, WIDE, 1, task(1));
    assert!(s.clear().wake);
    put(&mut s, WIDE, 1, task(2));
    assert!(!s.clear().wake);
    s.cancel(first);
    assert!(s.clear().wake);
    assert!(!s.clear().wake);
    let _ = next(&mut s, at(1));
    assert!(s.clear().wake);
    s.set_shutdown_mode(CloseMode::Drain);
    assert!(s.clear().wake);
    s.set_shutdown_mode(CloseMode::Drain);
    assert!(!s.clear().wake);
}

#[test]
fn stale_entries_do_not_count_against_the_limit() {
    let limits = Limits { max_global: 10, max_per_tenant: 2 };
    let mut s = state();
    let first = put(&mut s, limits, 1, task(1));
    let mut late = task(2);
    late.deadline = Some(at(-1));
    put(&mut s, limits, 1, late);
    s.cancel(first);
    put(&mut s, limits, 1, task(3));
    put(&mut s, limits, 1, task(4));
    let full = s.enqueue_try_reject(limits, TenantKey(1), task(5), 1, at(0));
    assert!(matches!(full, EnqueueAttempt::Full(back, EnqueueRejectReason::TenantFull) if back.payload == 5));
    assert_eq!(s.stats(limits).expired, 1);
    assert_eq!(s.purge_runs(), 0);
}

#[test]
fn compaction_runs_every_so_many_enqueues() {
    let mut s = state();
    for payload in 0..63 {
        put(&mut s, WIDE, 1, task(payload));
    }
    assert_eq!(s.purge_runs(), 0);
    put(&mut s, WIDE, 1, task(63));
    assert_eq!(s.purge_runs(), 1);
    for payload in 0..64 {
        put(&mut s, WIDE, 1, task(payload));
    }
    assert_eq!(s.purge_runs(), 2);
    assert_eq!(s.queue_len(), 128);
}

#[test]
fn what_makes_room_is_no_more_urgent() {
    let limits = Limits { max_global: 10, max_per_tenant: 2 };
    let ranked = |payload: u64, priority: Priority| {
        let mut t = task(payload);
        t.priority = priority;
        t
    };
    for (strategy, gone) in [(DropStrategy::Oldest, 1), (DropStrategy::Newest, 2)] {
        let mut s = state();
        put(&mut s, limits, 1, ranked(1, Priority::Normal));
        put(&mut s, limits, 1, ranked(2, Priority::Normal));
        let low = ranked(3, Priority::Low);
        let r = s.enqueue_drop_with_handle(limits, TenantKey(1), low, strategy, 1, at(0));
        assert!(matches!(
            r,
            EnqueueWithHandleResult::Rejected(EnqueueRejectReason::TenantFull)
        ));
        let high = ranked(4, Priority::High);
        let r = s.enqueue_drop_with_handle(limits, TenantKey(1), high, strategy, 1, at(0));
        assert!(matches!(r, EnqueueWithHandleResult::Enqueued(_)));
        assert_eq!(s.queue_len(), 2);
        let order: Vec<u64> = (0..2).map(|_| next(&mut s, at(1)).1).collect();
        assert_eq!(order, vec![4, 3 - gone]);
    }
}

#[test]
fn a_policy_without_a_victim_says_which_limit() {
    let limits = Limits { max_global: 1, max_per_tenant: 5 };
    let mut s = state();
    put(&mut s, limits, 1, task(1));
    let r = s.enqueue_drop_with_handle(limits, TenantKey(2), task(2), DropStrategy::Oldest, 1, at(0));
    assert!(matches!(
        r,
        EnqueueWithHandleResult::Rejected(EnqueueRejectReason::GlobalFull)
    ));
}

#[test]
fn top_talkers_are_few_and_ranked() {
    let mut s = SchedulerState::new(1, 2, HashMap::new(), None);
    for tenant in [1, 2, 2, 3] {
        put(&mut s, WIDE, tenant, task(0));
        let _ = next(&mut s, at(1));
    }
    let top: Vec<(u64, u64)> =
        s.stats(WIDE).top_tenants.iter().map(|t| (t.tenant.as_u64(), t.count)).collect();
    // The third tenant takes over the lowest entry, with its count.
    assert_eq!(top, vec![(3, 2), (2, 2)]);
}

#[test]
fn queue_times_fall_into_buckets() {
    let mut s = state();
    for (wait, samples) in [(20_000, 98), (700_000, 1), (3_000_000_000, 1)] {
        for _ in 0..samples {
            put(&mut s, WIDE, 1, task(0));
            let _ = next(&mut s, at(wait));
        }
    }
    let stats = s.stats(WIDE);
    assert_eq!(stats.queue_time_samples, 100);
    assert_eq!(stats.queue_time_sum_ns, 98 * 20_000 + 700_000 + 3_000_000_000);
    let filled: Vec<(u64, u64)> = stats
        .queue_time_histogram
        .iter()
        .filter(|b| b.count > 0)
        .map(|b| (b.le_ns, b.count))
        .collect();
    assert_eq!(filled, vec![(50_000, 98), (1_000_000, 1), (u64::MAX, 1)]);
    assert_eq!(stats.queue_time_p95_ns, 50_000);
    assert_eq!(stats.queue_time_p99_ns, 1_000_000);
}

#[test]
fn percentiles_are_zero_without_samples() {
    let stats = state().stats(WIDE);
    assert_eq!((stats.queue_time_p95_ns, stats.queue_time_p99_ns), (0, 0));
    assert_eq!(stats.queue_time_histogram.len(), 12);
}

#[test]
fn quanta_are_fixed_then_provided_then_base() {
    assert_eq!(effective_quantum(Some(7), Some(3), 2), 7);
    assert_eq!(effective_quantum(None, Some(3), 2), 3);
    assert_eq!(effective_quantum(None, None, 2), 2);
    assert_eq!(effective_quantum(Some(0), Some(3), 2), 1);
    assert_eq!(effective_quantum(None, None, u64::MAX), i64::MAX);
}

#[test]
fn fixed_quanta_take_effect_at_once() {
    let mut s = state();
    let mut heavy = task(1);
    heavy.cost = 10;
    put(&mut s, WIDE, 1, heavy.clone());
    s.set_tenant_quantum(TenantKey(1), 5);
    assert_eq!(next(&mut s, at(1)), (1, 1, 2));
    assert_eq!(s.quantum_for(TenantKey(1), 2), 5);
    s.clear_tenant_quantum(TenantKey(1), 2);
    assert_eq!(s.quantum_for(TenantKey(1), 2), 2);
    put(&mut s, WIDE, 1, heavy);
    assert_eq!(next(&mut s, at(1)), (1, 1, 5));
}

#[test]
fn budgets_do_not_overflow() {
    let mut s = state();
    let mut huge = task(1);
    huge.cost = u64::MAX;
    put(&mut s, WIDE, 1, huge);
    s.set_tenant_quantum(TenantKey(1), u64::MAX - 1);
    assert_eq!(next(&mut s, at(1)), (1, 1, 1));
}

#[test]
fn tasks_are_handed_out_as_they_were_accepted() {
    let mut s = SchedulerState::new(2, 4, HashMap::new(), None);
    let mut offered = Vec::new();
    for payload in 0..12 {
        let given = Task {
            payload,
            enqueue_ts: at(payload as i128),
            deadline: if payload % 3 == 0 { Some(at(500 + payload as i128)) } else { None },
            priority: if payload % 2 == 0 { Priority::High } else { Priority::Low },
            cost: 1 + payload % 4,
        };
        put(&mut s, WIDE, payload % 5, given.clone());
        offered.push((payload % 5, given));
    }
    let mut handed_out = 0;
    for _ in 0..1_000 {
        if let DequeueResult::Task { tenant, task } = s.try_dequeue(at(100)) {
            let (owner, given) = &offered[task.payload as usize];
            assert_eq!(tenant.as_u64(), *owner);
            assert_eq!(task.enqueue_ts, given.enqueue_ts);
            assert_eq!(task.deadline, given.deadline);
            assert_eq!(task.priority, given.priority);
            assert_eq!(task.cost, given.cost);
            handed_out += 1;
        }
    }
    assert_eq!(handed_out, 12);
}

#[test]
fn a_waiting_task_comes_within_its_attempts() {
    let mut s = state();
    // Two others with much to do, and one with a task that takes three quanta.
    for payload in 0..50 {
        put(&mut s, WIDE, 1, task(payload));
        put(&mut s, WIDE, 2, task(payload));
    }
    let mut large = task(99);
    large.cost = 5;
    assert!(matches!(
        s.enqueue_reject_with_handle(WIDE, TenantKey(3), large, 2, at(0)),
        EnqueueWithHandleResult::Enqueued(_)
    ));
    let bound = 3 * (3 + 1);
    let mut attempts = 0;
    loop {
        attempts += 1;
        assert!(attempts <= bound);
        if let DequeueResult::Task { tenant, task } = s.try_dequeue(at(attempts)) {
            if tenant == TenantKey(3) {
                assert_eq!(task.payload, 99);
                break;
            }
        }
    }
}

#[test]
fn loud_tenants_are_in_the_table() {
    let mut s = SchedulerState::new(1, 2, HashMap::new(), None);
    let order = [7, 1, 7, 2, 7, 3, 7, 4, 7, 5, 7];
    for (payload, tenant) in order.iter().enumerate() {
        put(&mut s, WIDE, *tenant, task(payload as u64));
        let _ = next(&mut s, at(1));
    }
    let stats = s.stats(WIDE);
    assert_eq!(stats.dequeued, 11);
    assert_eq!(stats.top_tenants.len(), 2);
    let counted: u64 = stats.top_tenants.iter().map(|entry| entry.count).sum();
    assert_eq!(counted, 11);
    // Six of eleven is more than half.
    assert_eq!(stats.top_tenants[0].tenant, TenantKey(7));
    assert!(stats.top_tenants[0].count >= 6);
}

#[test]
fn a_table_without_entries_stays_empty() {
    let mut s = SchedulerState::new(1, 0, HashMap::new(), None);
    put(&mut s, WIDE, 1, task(1));
    let _ = next(&mut s, at(1));
    assert!(s.stats(WIDE).top_tenants.is_empty());
}

#[test]
fn closing_takes_the_later_mode() {
    let mut s = state();
    put(&mut s, WIDE, 1, task(1));
    let _ = s.clear().wake;
    s.set_shutdown_mode(CloseMode::Drain);
    assert!(s.clear().wake);
    s.set_shutdown_mode(CloseMode::Drain);
    assert!(!s.clear().wake);
    assert_eq!(s.queue_len(), 1);
    assert!(!s.is_finished());
    s.set_shutdown_mode(CloseMode::Immediate);
    assert!(s.clear().wake);
    assert!(s.is_finished());
    s.set_shutdown_mode(CloseMode::Drain);
    s.set_shutdown_mode(CloseMode::Immediate);
    assert!(!s.clear().wake);
    assert!(s.is_finished());
    assert_eq!(s.queue_len(), 1);
    assert_eq!(s.stats(WIDE).enqueued, 1);
}

#[test]
fn reported_figures_add_up() {
    let limits = Limits { max_global: 3, max_per_tenant: 2 };
    let mut s = state();
    let mut expiring = task(1);
    expiring.deadline = Some(at(5));
    put(&mut s, limits, 1, expiring);
    let second = put(&mut s, limits, 1, task(2));
    let _ = s.enqueue_reject_with_handle(limits, TenantKey(1), task(3), 1, at(0));
    let _ = s.enqueue_drop_with_handle(
        limits,
        TenantKey(1),
        task(4),
        DropStrategy::Newest,
        1,
        at(0),
    );
    put(&mut s, limits, 2, task(5));
    let _ = s.enqueue_reject_with_handle(limits, TenantKey(2), task(6), 1, at(0));
    s.record_reject(EnqueueRejectReason::Timeout);
    assert_eq!(s.cancel(second), CancelResult::NotFound);
    let _ = next(&mut s, at(10));
    let stats = s.stats(limits);
    assert_eq!(stats.dropped, 4);
    assert_eq!(
        stats.dropped,
        stats.rejected_global + stats.rejected_tenant + stats.timeout_rejected
            + stats.dropped_policy
    );
    assert_eq!(
        stats.enqueued,
        stats.queue_len_estimate + stats.dequeued + stats.expired + stats.dropped_policy
    );
    assert_eq!(stats.queue_time_samples, stats.dequeued);
}

#[test]
fn a_waiting_task_comes_within_its_attempts_among_shards() {
    let mut s = SchedulerState::new(3, 4, HashMap::new(), None);
    // Tenants 1 and 2 keep other shards busy; 3 and 6 share one.
    for payload in 0..50 {
        for tenant in [1, 2, 6] {
            put(&mut s, WIDE, tenant, task(payload));
        }
    }
    let mut large = task(99);
    large.cost = 5;
    assert!(matches!(
        s.enqueue_reject_with_handle(WIDE, TenantKey(3), large, 2, at(0)),
        EnqueueWithHandleResult::Enqueued(_)
    ));
    let bound = 3 * (2 * (3 + 1));
    let mut attempts = 0;
    loop {
        attempts += 1;
        assert!(attempts <= bound);
        if let DequeueResult::Task { tenant, task } = s.try_dequeue(at(attempts)) {
            if tenant == TenantKey(3) {
                assert_eq!(task.payload, 99);
                break;
            }
        }
    }
}

#[test]
fn what_leaves_the_queues_is_handed_over() {
    let mut s = state();
    let mut late = task(1);
    late.deadline = Some(at(5));
    put(&mut s, WIDE, 1, late);
    let second = put(&mut s, WIDE, 1, task(2));
    put(&mut s, WIDE, 1, task(3));
    assert_eq!(s.cancel(second), CancelResult::Cancelled);
    let rest = s.clear();
    assert!(rest.wake);
    assert!(rest.removed.is_empty());
    assert_eq!(next(&mut s, at(10)).1, 3);
    let payloads: Vec<u64> = s.clear().removed.iter().map(|entry| entry.task.payload).collect();
    assert_eq!(payloads, vec![1, 2]);
    let rest = s.clear();
    assert!(!rest.wake);
    assert!(rest.removed.is_empty());
}

#[test]
fn attempts_go_on_until_nothing_is_pending() {
    let mut s = state();
    let mut large = task(1);
    large.cost = 500;
    put(&mut s, WIDE, 1, large);
    assert!(matches!(s.try_dequeue(at(1)), DequeueResult::Empty));
    match s.dequeue_or_idle(WIDE, at(1)) {
        DequeueResult::Task { task, .. } => assert_eq!(task.cost, 500),
        other => panic!("expected a task, got {:?}", other),
    }
    assert!(matches!(s.dequeue_or_idle(WIDE, at(1)), DequeueResult::Empty));
    s.set_shutdown_mode(CloseMode::Drain);
    assert!(matches!(s.dequeue_or_idle(WIDE, at(1)), DequeueResult::Closed));
}
