//! The scheduler under threads that wait for each other.
use std::collections::HashMap;
use std::sync::{mpsc, Arc, Barrier};

use firq::bench::FifoQueue;
use firq::{
    AsyncScheduler, BackpressurePolicy, CancelResult, DequeueResult, Duration, EnqueueResult,
    EnqueueWithHandleResult, Priority, Scheduler, SchedulerConfig, Task, TenantKey,
};
use tokio::runtime::{Builder, Runtime};

fn runtime() -> Runtime {
    Builder::new_multi_thread()
        .worker_threads(2)
        .enable_time()
        .build()
        .expect("runtime")
}

fn pause(rt: &Runtime, millis: u64) {
    rt.block_on(async { tokio::time::sleep(std::time::Duration::from_millis(millis)).await });
}

fn config(max_global: usize, max_per_tenant: usize, policy: BackpressurePolicy) -> SchedulerConfig {
    SchedulerConfig {
        shards: 1,
        max_global,
        max_per_tenant,
        quantum: 1,
        quantum_by_tenant: HashMap::new(),
        quantum_provider: None,
        backpressure: policy,
        backpressure_by_tenant: HashMap::new(),
        top_tenants_capacity: 0,
    }
}

fn task(scheduler: &Scheduler<u64>, payload: u64) -> Task<u64> {
    Task {
        payload,
        enqueue_ts: scheduler.now(),
        deadline: None,
        priority: Priority::Normal,
        cost: 1,
    }
}

#[test]
fn timeout_waits_for_capacity() {
    let rt = runtime();
    let policy = BackpressurePolicy::Timeout { wait: Duration::from_millis(200) };
    let scheduler = Arc::new(Scheduler::new(config(1, 1, policy)));
    let tenant = TenantKey::from(1);

    let _ = scheduler.enqueue(tenant, task(&scheduler, 1));

    let (tx, rx) = mpsc::channel();
    let waiting = Arc::clone(&scheduler);
    let _join = rt.spawn_blocking(move || {
        let result = waiting.enqueue(tenant, task(&waiting, 2));
        let _ = tx.send(result);
    });

    pause(&rt, 40);
    assert!(rx.try_recv().is_err(), "enqueue should be waiting");

    let mut handed_out = false;
    for _ in 0..4 {
        handed_out = handed_out || matches!(scheduler.try_dequeue(), DequeueResult::Task { .. });
    }
    assert!(handed_out);

    let result = rx
        .recv_timeout(std::time::Duration::from_secs(1))
        .expect("enqueue should complete after capacity frees");
    assert!(matches!(result, EnqueueResult::Enqueued));
}

#[test]
fn enqueue_wakes_blocking_dequeue() {
    let rt = runtime();
    let scheduler = Arc::new(Scheduler::<u64>::new(config(10, 10, BackpressurePolicy::Reject)));
    let tenant = TenantKey::from(1);
    let (tx, rx) = mpsc::channel();
    let consumer = Arc::clone(&scheduler);
    let _join = rt.spawn_blocking(move || {
        let result = consumer.dequeue_blocking();
        let _ = tx.send(result);
    });

    pause(&rt, 20);
    let _ = scheduler.enqueue(tenant, task(&scheduler, 42));

    let result = rx
        .recv_timeout(std::time::Duration::from_secs(1))
        .expect("dequeue_blocking should be notified");
    match result {
        DequeueResult::Task { tenant: got, .. } => assert_eq!(got, tenant),
        other => panic!("expected task after enqueue, got {:?}", other),
    }
}

#[test]
fn close_wakes_blocking_dequeue() {
    let rt = runtime();
    let scheduler = Arc::new(Scheduler::<u64>::new(config(10, 10, BackpressurePolicy::Reject)));
    let (tx, rx) = mpsc::channel();
    let consumer = Arc::clone(&scheduler);
    let _join = rt.spawn_blocking(move || {
        let result = consumer.dequeue_blocking();
        let _ = tx.send(result);
    });

    pause(&rt, 20);
    scheduler.close();

    let result = rx
        .recv_timeout(std::time::Duration::from_secs(1))
        .expect("dequeue_blocking should return after close");
    assert!(matches!(result, DequeueResult::Closed));
}

#[test]
fn global_capacity_is_strict_under_race() {
    let rt = runtime();
    let scheduler = Arc::new(Scheduler::new(config(3, 100, BackpressurePolicy::Reject)));
    let tenants = [TenantKey::from(1), TenantKey::from(2), TenantKey::from(3)];
    let start = Arc::new(Barrier::new(tenants.len()));
    let mut producers = Vec::new();

    for tenant in tenants {
        let scheduler = Arc::clone(&scheduler);
        let start = Arc::clone(&start);
        producers.push(rt.spawn_blocking(move || {
            start.wait();
            for i in 0..5_000 {
                let _ = scheduler.enqueue(tenant, task(&scheduler, i));
            }
        }));
    }

    for producer in producers {
        rt.block_on(producer).expect("producer thread should finish");
    }

    let stats = scheduler.stats();
    assert!(
        stats.queue_len_estimate <= 3,
        "queue_len_estimate must not exceed max_global"
    );
    assert_eq!(stats.enqueued, 3);
    assert_eq!(stats.dropped, 14_997);
}

#[test]
fn no_task_is_lost_between_threads() {
    let rt = runtime();
    let scheduler = Arc::new(Scheduler::new(config(10_000, 10_000, BackpressurePolicy::Reject)));
    let mut consumers = Vec::new();
    for _ in 0..3 {
        let scheduler = Arc::clone(&scheduler);
        consumers.push(rt.spawn_blocking(move || {
            let mut seen: Vec<u64> = Vec::new();
            loop {
                match scheduler.dequeue_blocking() {
                    DequeueResult::Task { task, .. } => seen.push(task.payload),
                    DequeueResult::Closed => return seen,
                    DequeueResult::Empty => {}
                }
            }
        }));
    }
    let mut producers = Vec::new();
    for p in 0..2u64 {
        let scheduler = Arc::clone(&scheduler);
        producers.push(rt.spawn_blocking(move || {
            for i in 0..1_000u64 {
                let tenant = TenantKey::from(i % 7);
                let result = scheduler.enqueue(tenant, task(&scheduler, p * 1_000 + i));
                assert!(matches!(result, EnqueueResult::Enqueued));
            }
        }));
    }
    for producer in producers {
        rt.block_on(producer).expect("producer");
    }
    scheduler.close_drain();
    let mut all: Vec<u64> = Vec::new();
    for consumer in consumers {
        all.extend(rt.block_on(consumer).expect("consumer"));
    }
    all.sort_unstable();
    assert_eq!(all, (0..2_000).collect::<Vec<u64>>());
}

#[test]
fn a_waiting_consumer_of_the_plain_queue_is_told() {
    let rt = runtime();
    let queue = Arc::new(FifoQueue::<u64>::new(2));
    let consumer = Arc::clone(&queue);
    let taken = rt.spawn_blocking(move || {
        let mut payloads: Vec<u64> = Vec::new();
        while let Some(task) = consumer.dequeue_blocking() {
            payloads.push(task.payload);
        }
        payloads
    });
    let clock = firq::Clock::new();
    pause(&rt, 20);
    for payload in [5, 6] {
        let offered = Task {
            payload,
            enqueue_ts: clock.now(),
            deadline: None,
            priority: Priority::Low,
            cost: 1,
        };
        assert!(queue.enqueue(offered));
        pause(&rt, 20);
    }
    queue.close();
    assert_eq!(rt.block_on(taken).expect("consumer"), vec![5, 6]);
}

#[test]
fn async_scheduler_enqueue_cancel_roundtrip() {
    let mut config = config(128, 128, BackpressurePolicy::Reject);
    config.shards = 2;
    let scheduler = AsyncScheduler::new(Arc::new(Scheduler::new(config)));
    let tenant = TenantKey::from(1);

    let handle = match scheduler.enqueue_with_handle(tenant, task(scheduler.inner(), 1)) {
        EnqueueWithHandleResult::Enqueued(handle) => handle,
        other => panic!("expected handle, got {:?}", other),
    };
    assert!(matches!(scheduler.cancel(handle), CancelResult::Cancelled));
}

#[test]
fn enqueue_wakes_a_wait_left_to_the_signal() {
    let rt = runtime();
    let scheduler = Arc::new(Scheduler::new(config(10, 10, BackpressurePolicy::Reject)));
    let (tx, rx) = mpsc::channel();
    for timed in [false, true] {
        let tx = tx.clone();
        let waiting = Arc::clone(&scheduler);
        let _join = rt.spawn_blocking(move || {
            let result = if timed {
                waiting.await_task_for(Duration::from_secs(10))
            } else {
                Some(waiting.await_task())
            };
            let _ = tx.send(result);
        });
    }
    pause(&rt, 40);
    assert!(rx.try_recv().is_err(), "both should be waiting");
    for payload in 1..=2 {
        let _ = scheduler.enqueue(TenantKey::from(payload), task(&scheduler, payload));
    }
    let mut payloads = Vec::new();
    for _ in 0..2 {
        match rx.recv_timeout(std::time::Duration::from_secs(5)).expect("a result") {
            Some(DequeueResult::Task { task, .. }) => payloads.push(task.payload),
            other => panic!("expected a task, got {:?}", other),
        }
    }
    payloads.sort_unstable();
    assert_eq!(payloads, vec![1, 2]);
}

#[test]
fn close_wakes_a_wait_left_to_the_signal() {
    let rt = runtime();
    let scheduler = Arc::new(Scheduler::<u64>::new(config(10, 10, BackpressurePolicy::Reject)));
    let (tx, rx) = mpsc::channel();
    let waiting = Arc::clone(&scheduler);
    let _join = rt.spawn_blocking(move || {
        let _ = tx.send(waiting.await_task());
    });
    pause(&rt, 40);
    assert!(rx.try_recv().is_err(), "the consumer should be waiting");
    scheduler.close();
    let result = rx.recv_timeout(std::time::Duration::from_secs(5)).expect("a result");
    assert!(matches!(result, DequeueResult::Closed));
}
