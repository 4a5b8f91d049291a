//! Decisions of the request layer and of HTTP front ends.
use std::sync::Arc;

use firq::web::{
    deadline_from_header, extract_tenant, may_proceed, may_wait, refusal_text, status_figures,
    tenant_from_headers, GateError,
};
use firq::{
    admission, at_least_one, default_rejection_mapper, in_flight_active, joined, permit_task,
    received, AsyncScheduler, BackpressurePolicy, CloseMode, DequeueResult, EnqueueRejectReason,
    EnqueueResult, EnqueueWithHandleResult, Firq, FirqError, FirqHttpRejection, Instant,
    KeyExtractor, PendingCancelGuard, Priority, Received, Scheduler, SchedulerConfig,
    SchedulerStats, Task, TaskHandle, TenantKey,
};

fn at(nanos: i128) -> Instant {
    Instant { nanos }
}

#[test]
fn rejections_are_mapped_to_statuses() {
    let tenant = default_rejection_mapper(EnqueueRejectReason::TenantFull);
    assert_eq!((tenant.status, tenant.code), (429, "tenant_full"));
    assert_eq!(tenant.message, "tenant queue limit reached");
    let global = default_rejection_mapper(EnqueueRejectReason::GlobalFull);
    assert_eq!((global.status, global.code), (503, "global_full"));
    assert_eq!(global.message, "scheduler global capacity reached");
    let timeout = default_rejection_mapper(EnqueueRejectReason::Timeout);
    assert_eq!((timeout.status, timeout.code), (503, "timeout"));
    assert_eq!(timeout.message, "request timed out waiting for scheduler capacity");
    assert_eq!(timeout.reason, EnqueueRejectReason::Timeout);
}

#[test]
fn requests_are_admitted_rejected_or_refused() {
    let mapper = |reason: EnqueueRejectReason| FirqHttpRejection {
        status: 418,
        code: "own",
        message: "own",
        reason,
    };
    let waiting = EnqueueWithHandleResult::Enqueued(TaskHandle::from(7));
    assert!(matches!(admission::<String, _>(waiting, &mapper), Ok(handle) if handle.as_u64() == 7));
    let full = EnqueueWithHandleResult::Rejected(EnqueueRejectReason::GlobalFull);
    match admission::<String, _>(full, &mapper) {
        Err(FirqError::Rejected(rejection)) => {
            assert_eq!(rejection.status, 418);
            assert_eq!(rejection.reason, EnqueueRejectReason::GlobalFull);
        }
        other => panic!("expected a rejection, got {:?}", other),
    }
    let closed = EnqueueWithHandleResult::Closed;
    assert!(matches!(
        admission::<String, _>(closed, &default_rejection_mapper),
        Err(FirqError::Closed)
    ));
}

#[test]
fn errors_are_put_into_words() {
    let rejection = default_rejection_mapper(EnqueueRejectReason::TenantFull);
    assert_eq!(
        FirqError::<String>::Rejected(rejection.clone()).message(),
        "Request rejected: status=429 code=tenant_full reason=TenantFull"
    );
    assert_eq!(
        FirqError::<String>::Service(String::from("down")).message(),
        "Service error: down"
    );
    assert_eq!(FirqError::<String>::Closed.message(), "Scheduler closed");
    assert_eq!(
        FirqError::<String>::PermitError.message(),
        "Permit acquisition failed (task expired or dropped)"
    );
    assert_eq!(
        refusal_text(&FirqError::Rejected(rejection)),
        "tenant queue limit reached (tenant_full)"
    );
    assert_eq!(refusal_text(&FirqError::Closed), "Service unavailable");
    assert_eq!(refusal_text(&FirqError::PermitError), "Request expired");
    assert_eq!(refusal_text(&FirqError::Service(String::from("down"))), "down");
}

#[test]
fn the_builder_hands_its_settings_on() {
    assert_eq!(Firq::new().in_flight_limit(), 1000);
    assert_eq!(Firq::new().with_in_flight_limit(0).in_flight_limit(), 1);
    assert_eq!(Firq::new().with_in_flight_limit(128).in_flight_limit(), 128);
    assert_eq!(Firq::new().with_max_global(0).in_flight_limit(), 1);
    let scheduler: AsyncScheduler<u8> = Firq::default()
        .with_shards(2)
        .with_max_global(2)
        .with_max_per_tenant(1)
        .with_quantum(3)
        .with_backpressure(BackpressurePolicy::DropNewestPerTenant)
        .scheduler();
    let tenant = TenantKey::from(1);
    let now = scheduler.inner().now();
    for payload in 0..2 {
        let r = scheduler.enqueue(tenant, permit_task(payload, now, None));
        assert!(matches!(r, EnqueueResult::Enqueued));
    }
    let stats = scheduler.stats();
    assert_eq!(stats.max_global, 2);
    assert_eq!(stats.dropped_policy, 1);
    assert_eq!(stats.queue_len_estimate, 1);
    assert_eq!(
        scheduler.inner().backpressure_for(tenant),
        BackpressurePolicy::DropNewestPerTenant
    );
}

#[test]
fn permits_in_use_are_counted() {
    assert_eq!(in_flight_active(10, 4), 6);
    assert_eq!(in_flight_active(10, 10), 0);
    assert_eq!(in_flight_active(10, 11), 0);
}

#[test]
fn requests_wait_as_normal_tasks_of_cost_one() {
    let task = permit_task("p", at(5), Some(at(9)));
    assert_eq!(task.payload, "p");
    assert_eq!(task.enqueue_ts, at(5));
    assert_eq!(task.deadline, Some(at(9)));
    assert_eq!(task.priority, Priority::Normal);
    assert_eq!(task.cost, 1);
}

#[test]
fn a_pending_request_is_cancelled_once_unless_disarmed() {
    let mut guard = PendingCancelGuard::new(TaskHandle::from(3));
    assert_eq!(guard.take().map(|h| h.as_u64()), Some(3));
    assert!(guard.take().is_none());
    let mut served = PendingCancelGuard::new(TaskHandle::from(4));
    served.disarm();
    assert!(served.take().is_none());
}

#[test]
fn functions_find_tenants() {
    let extractor = |req: &u64| TenantKey::from(*req + 1);
    assert_eq!(extractor.extract(&41), TenantKey::from(42));
}

#[test]
fn tenants_come_from_headers() {
    assert_eq!(extract_tenant(Some("12")).as_u64(), 12);
    assert_eq!(extract_tenant(Some("twelve")).as_u64(), 0);
    assert_eq!(extract_tenant(None).as_u64(), 0);
    let token = Some("Bearer tenant:9");
    assert_eq!(tenant_from_headers(Some("12"), token).as_u64(), 12);
    assert_eq!(tenant_from_headers(Some("x"), token).as_u64(), 9);
    assert_eq!(tenant_from_headers(None, token).as_u64(), 9);
    assert_eq!(tenant_from_headers(None, Some("Bearer tenant:")).as_u64(), 0);
    assert_eq!(tenant_from_headers(None, Some("Basic tenant:9")).as_u64(), 0);
    assert_eq!(tenant_from_headers(None, None).as_u64(), 0);
}

#[test]
fn deadlines_come_from_headers() {
    assert_eq!(deadline_from_header(Some("250"), at(1)), Some(at(250_000_001)));
    assert_eq!(deadline_from_header(Some("0"), at(7)), Some(at(7)));
    assert_eq!(deadline_from_header(Some("-1"), at(1)), None);
    assert_eq!(deadline_from_header(None, at(1)), None);
}

#[test]
fn gates_answer_what_the_scheduler_said() {
    assert_eq!(may_wait(EnqueueResult::Enqueued), Ok(()));
    assert_eq!(
        may_wait(EnqueueResult::Rejected(EnqueueRejectReason::TenantFull)),
        Err(GateError::TooManyRequests)
    );
    assert_eq!(may_wait(EnqueueResult::Closed), Err(GateError::ServiceUnavailable));
    let turn = DequeueResult::Task { tenant: TenantKey::from(1), task: permit_task(0, at(0), None) };
    assert_eq!(may_proceed(&turn), Ok(()));
    assert_eq!(may_proceed::<u8>(&DequeueResult::Closed), Err(GateError::ServiceUnavailable));
    assert_eq!(may_proceed::<u8>(&DequeueResult::Empty), Err(GateError::Internal));
    let answers: Vec<(u16, &str)> =
        [GateError::TooManyRequests, GateError::ServiceUnavailable, GateError::Internal]
            .iter()
            .map(|e| (e.status(), e.message()))
            .collect();
    assert_eq!(
        answers,
        vec![
            (429, "Too many requests. Please try again later."),
            (503, "Service temporarily unavailable"),
            (500, "Internal server error"),
        ]
    );
}

#[test]
fn status_is_reported_in_milliseconds() {
    let mut stats = SchedulerStats::default();
    assert_eq!(status_figures(&stats).avg_queue_time_ms, 0);
    stats.enqueued = 5;
    stats.dequeued = 2;
    stats.queue_len_estimate = 3;
    stats.queue_time_sum_ns = 9_000_000;
    stats.queue_time_samples = 2;
    stats.queue_time_p95_ns = 10_000_000;
    stats.queue_time_p99_ns = 50_999_999;
    let figures = status_figures(&stats);
    assert_eq!((figures.enqueued, figures.dequeued, figures.queue_len), (5, 2, 3));
    assert_eq!(figures.avg_queue_time_ms, 4);
    assert_eq!((figures.p95_queue_time_ms, figures.p99_queue_time_ms), (10, 50));
}

#[test]
fn consumers_serve_stop_or_try_again() {
    let task = Task {
        payload: 11u64,
        enqueue_ts: at(0),
        deadline: None,
        priority: Priority::Low,
        cost: 2,
    };
    match received(DequeueResult::Task { tenant: TenantKey::from(3), task }) {
        Received::Item(item) => {
            assert_eq!(item.tenant, TenantKey::from(3));
            assert_eq!(item.task.payload, 11);
        }
        _ => panic!("expected an item"),
    }
    assert!(matches!(received::<u64>(DequeueResult::Closed), Received::Finished));
    assert!(matches!(received::<u64>(DequeueResult::Empty), Received::Again));
    assert!(matches!(joined::<u64>(None), DequeueResult::Closed));
    assert!(matches!(joined::<u64>(Some(DequeueResult::Empty)), DequeueResult::Empty));
    assert_eq!((at_least_one(0), at_least_one(1), at_least_one(5)), (1, 1, 5));
}

#[test]
fn clones_share_one_scheduler() {
    let first = AsyncScheduler::new(Arc::new(Scheduler::new(SchedulerConfig::default())));
    let second = first.clone();
    let now = first.inner().now();
    let _ = first.enqueue(TenantKey::from(1), permit_task(7u64, now, None));
    assert_eq!(second.stats().queue_len_estimate, 1);
    // The quantum of ten pays for the task at the second attempt.
    assert!(matches!(second.try_dequeue(), DequeueResult::Empty));
    assert!(matches!(second.try_dequeue(), DequeueResult::Task { task, .. } if task.payload == 7));
    second.close_with_mode(CloseMode::Drain);
    assert!(matches!(first.try_dequeue(), DequeueResult::Closed));
    first.close();
    assert!(matches!(second.try_dequeue(), DequeueResult::Closed));
}
