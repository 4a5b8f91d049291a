//! Numbers as text, metrics as text, and points in time.
use firq::prometheus::render_stats;
use firq::text::{append_decimal, parse_number};
use firq::{
    Duration, Instant, Priority, QueueTimeBucket, SchedulerConfig, SchedulerStats, Task,
    TenantCount, TenantKey,
};

#[test]
fn numbers_are_written_and_read_back() {
    for n in [0, 7, 10, 99, 100, 1_234_567_890, u64::MAX] {
        let mut out = String::from("n=");
        append_decimal(&mut out, n);
        assert_eq!(out, format!("n={}", n));
        assert_eq!(parse_number(&out[2..]), Some(n));
    }
}

#[test]
fn what_is_no_number_is_not_read() {
    for text in ["", "+", "-1", " 1", "1 ", "1_000", "0x1", "18446744073709551616", "99999999999999999999999"] {
        assert_eq!(parse_number(text), None, "{}", text);
    }
    assert_eq!(parse_number("+5"), Some(5));
    assert_eq!(parse_number("0005"), Some(5));
    assert_eq!(parse_number("18446744073709551615"), Some(u64::MAX));
}

#[test]
fn metrics_are_rendered_line_by_line() {
    let mut stats = SchedulerStats::default();
    stats.enqueued = 10;
    stats.dequeued = 7;
    stats.dropped = 2;
    stats.expired = 1;
    stats.queue_len_estimate = 3;
    stats.queue_time_sum_ns = 4_500;
    stats.queue_time_samples = 7;
    stats.queue_time_p95_ns = 50_000;
    stats.queue_time_p99_ns = 100_000;
    stats.queue_time_histogram = vec![
        QueueTimeBucket { le_ns: 10_000, count: 4 },
        QueueTimeBucket { le_ns: u64::MAX, count: 3 },
    ];
    stats.top_tenants = vec![TenantCount { tenant: TenantKey::from(42), count: 5 }];
    let expected = [
        "# HELP app_enqueued_total Total tasks enqueued",
        "# TYPE app_enqueued_total counter",
        "app_enqueued_total 10",
        "# HELP app_dequeued_total Total tasks dequeued",
        "# TYPE app_dequeued_total counter",
        "app_dequeued_total 7",
        "# HELP app_dropped_total Total tasks dropped by backpressure",
        "# TYPE app_dropped_total counter",
        "app_dropped_total 2",
        "# HELP app_expired_total Total tasks expired before dequeue",
        "# TYPE app_expired_total counter",
        "app_expired_total 1",
        "# HELP app_queue_len_estimate Estimated queue length",
        "# TYPE app_queue_len_estimate gauge",
        "app_queue_len_estimate 3",
        "# HELP app_queue_time_sum_ns Sum of queue time in ns",
        "# TYPE app_queue_time_sum_ns counter",
        "app_queue_time_sum_ns 4500",
        "# HELP app_queue_time_samples Total queue time samples",
        "# TYPE app_queue_time_samples counter",
        "app_queue_time_samples 7",
        "# HELP app_queue_time_p95_ns Approx p95 queue time in ns",
        "# TYPE app_queue_time_p95_ns gauge",
        "app_queue_time_p95_ns 50000",
        "# HELP app_queue_time_p99_ns Approx p99 queue time in ns",
        "# TYPE app_queue_time_p99_ns gauge",
        "app_queue_time_p99_ns 100000",
        "# HELP app_queue_time_ns Queue time histogram",
        "# TYPE app_queue_time_ns histogram",
        "app_queue_time_ns_bucket{le=\"10000\"} 4",
        "app_queue_time_ns_bucket{le=\"+Inf\"} 7",
        "app_queue_time_ns_count 7",
        "app_queue_time_ns_sum 4500",
        "# HELP app_tenant_dequeued_total Approx dequeued count per tenant (top talkers)",
        "# TYPE app_tenant_dequeued_total gauge",
        "app_tenant_dequeued_total{tenant=\"42\"} 5",
        "",
    ]
    .join("\n");
    assert_eq!(render_stats(&stats, "app"), expected);
}

#[test]
fn metrics_without_histogram_and_tenants_are_short() {
    let out = render_stats(&SchedulerStats::default(), "");
    assert!(out.starts_with("# HELP firq_enqueued_total Total tasks enqueued\n"));
    assert!(out.ends_with("firq_queue_time_p99_ns 0\n"));
    assert_eq!(out.lines().count(), 27);
}

#[test]
fn spans_have_their_lengths() {
    assert_eq!(Duration::from_nanos(7).nanos, 7);
    assert_eq!(Duration::from_micros(7).nanos, 7_000);
    assert_eq!(Duration::from_millis(7).nanos, 7_000_000);
    assert_eq!(Duration::from_secs(u64::MAX).nanos, u64::MAX as u128 * 1_000_000_000);
    assert_eq!(Duration::from_millis(2_500).parts(), (2, 500_000_000));
    assert_eq!(Duration { nanos: u128::MAX }.parts(), (u64::MAX, 999_999_999));
    let (short, long) = (Duration::from_millis(1), Duration::from_secs(1));
    assert_eq!((short.min(long), long.min(short)), (short, short));
}

#[test]
fn points_in_time_stay_on_the_line() {
    let t = Instant { nanos: 100 };
    assert_eq!(Instant::from_origin(100), t);
    assert_eq!(Instant::from_origin(u128::MAX).nanos, i128::MAX);
    assert_eq!(t.after(Duration::from_nanos(5)).nanos, 105);
    assert_eq!(t.before(Duration::from_nanos(150)).nanos, -50);
    assert_eq!(t.after(Duration { nanos: u128::MAX }).nanos, i128::MAX);
    assert_eq!(t.before(Duration { nanos: u128::MAX }).nanos, i128::MIN);
    assert!(t.is_after(Instant { nanos: 99 }) && !t.is_after(t));
    assert_eq!(t.until(Instant { nanos: 130 }), Some(Duration::from_nanos(30)));
    assert_eq!(t.until(t), None);
    assert_eq!(t.nanos_since(Instant { nanos: 40 }), 60);
    assert_eq!(t.nanos_since(Instant { nanos: 101 }), 0);
    assert_eq!(t.nanos_since(Instant { nanos: i128::MIN }), u64::MAX);
}

#[test]
fn tasks_expire_after_their_deadline() {
    let mut task = Task {
        payload: (),
        enqueue_ts: Instant { nanos: 0 },
        deadline: Some(Instant { nanos: 10 }),
        priority: Priority::default(),
        cost: 1,
    };
    assert!(!task.is_expired(Instant { nanos: 10 }));
    assert!(task.is_expired(Instant { nanos: 11 }));
    task.deadline = None;
    assert!(!task.is_expired(Instant { nanos: i128::MAX }));
}

#[test]
fn priorities_are_ordered() {
    assert_eq!(Priority::default(), Priority::Normal);
    assert_eq!(Priority::ordered(), [Priority::High, Priority::Normal, Priority::Low]);
    let places: Vec<usize> = Priority::ordered().iter().map(|p| p.index()).collect();
    assert_eq!(places, vec![0, 1, 2]);
}

#[test]
fn the_default_configuration_is_modest() {
    let config = SchedulerConfig::default();
    assert_eq!(config.shards, 1);
    assert_eq!((config.max_global, config.max_per_tenant), (1_000, 100));
    assert_eq!((config.quantum, config.top_tenants_capacity), (10, 10));
    assert!(config.quantum_provider.is_none());
}

#[test]
fn names_start_with_the_namespace() {
    let mut stats = SchedulerStats::default();
    stats.queue_time_histogram = vec![QueueTimeBucket { le_ns: 10_000, count: 4 }];
    stats.top_tenants = vec![TenantCount { tenant: TenantKey::from(42), count: 5 }];
    assert_eq!(render_stats(&stats, ""), render_stats(&stats, "firq"));
    for namespace in ["firq", "app", "a b"] {
        let out = render_stats(&stats, namespace);
        let name = format!("{}_", namespace);
        assert!(out.ends_with('\n'));
        assert_eq!(out.lines().count(), 35);
        for line in out.lines() {
            let rest = line.strip_prefix("# HELP ").unwrap_or(line);
            let rest = rest.strip_prefix("# TYPE ").unwrap_or(rest);
            assert!(rest.starts_with(&name), "{}", line);
        }
    }
}
