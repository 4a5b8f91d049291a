//! The loads that the scheduler is tried with.
use firq::bench::{
    after_take, fifo_figures, max_global, next_task, run_seconds, scenarios, scheduler_config,
    scheduler_figures, serve, BenchConfig, ConcurrentHistogram, FifoNext, FifoQueue,
    FifoState, FifoTake, ProducerClass, QueueTimes, Served, SharedCounters, Totals,
};
use firq::pipeline::{
    busy_percent, by_served, example_config, job_cost, pipeline_stage_ms, record_count,
    tenant_index, tenant_profiles, tier_counts, ProducerPlan, TenantTier,
};
use firq::{BackpressurePolicy, Instant, Priority, SchedulerStats, Task, TenantKey};

fn at(nanos: i128) -> Instant {
    Instant { nanos }
}

fn plain(payload: u64) -> Task<u64> {
    Task {
        payload,
        enqueue_ts: at(0),
        deadline: None,
        priority: Priority::Normal,
        cost: 1,
    }
}

#[test]
fn there_are_five_scenarios() {
    let all = scenarios();
    let names: Vec<&str> = all.iter().map(|s| s.name).collect();
    assert_eq!(
        names,
        vec![
            "hot_tenant_sustained",
            "burst_massive",
            "mixed_priorities",
            "deadline_expiration",
            "capacity_pressure",
        ]
    );
    let crowds: Vec<usize> = all.iter().map(|s| s.producers.len()).collect();
    assert_eq!(crowds, vec![21, 160, 140, 80, 120]);
    let hot = all[0].producers[0];
    assert_eq!((hot.tenant, hot.class), (TenantKey::from(1), ProducerClass::Hot));
    assert_eq!((hot.interval_ms, hot.priority), (0, Priority::High));
    let last = all[2].producers[139];
    assert_eq!((last.tenant, last.priority), (TenantKey::from(140), Priority::Low));
    assert_eq!(all[3].producers[5].deadline_ms, Some(5));
    assert!(all[0].report_cold_tail && !all[1].report_cold_tail);
}

#[test]
fn scenarios_fall_back_on_the_defaults() {
    let config = BenchConfig::default();
    let all = scenarios();
    assert_eq!(run_seconds(&config, &all[0], None), 6);
    assert_eq!(run_seconds(&config, &all[2], None), 8);
    assert_eq!(run_seconds(&config, &all[0], Some(1)), 1);
    assert_eq!(max_global(&config, &all[1]), 6_000);
    assert_eq!(max_global(&config, &all[2]), 10_000);
    let scheduler = scheduler_config(&config, &all[4]);
    assert_eq!((scheduler.max_global, scheduler.max_per_tenant), (2_000, 40));
    assert_eq!((scheduler.shards, scheduler.quantum), (4, 2));
    assert_eq!(scheduler.backpressure, BackpressurePolicy::Reject);
    assert_eq!(scheduler_config(&config, &all[2]).max_per_tenant, 1_000);
}

#[test]
fn producers_make_tasks_of_their_profile() {
    let all = scenarios();
    let task = next_task(&all[3].producers[0], at(1_000));
    assert_eq!(task.payload.class, ProducerClass::Cold);
    assert_eq!(task.enqueue_ts, at(1_000));
    assert_eq!(task.deadline, Some(at(5_001_000)));
    assert_eq!((task.priority, task.cost), (Priority::Normal, 1));
    assert_eq!(next_task(&all[0].producers[0], at(0)).deadline, None);
    assert_eq!(serve(&task, at(5_001_000)), Served::After(5_000_000));
    assert_eq!(serve(&task, at(5_001_001)), Served::Expired);
}

#[test]
fn queue_times_have_percentiles() {
    let mut times = QueueTimes::new();
    assert_eq!(times.percentile_ns(99), 0);
    for _ in 0..98 {
        times.observe(10_000);
    }
    times.observe(10_001);
    times.observe(120_000_000_000);
    times.observe(120_000_000_001);
    assert_eq!(times.percentile_ns(98), 10_000);
    assert_eq!(times.percentile_ns(99), 50_000);
    assert_eq!(times.percentile_ns(100), 120_000_000_000);
    let shared = ConcurrentHistogram::new();
    shared.observe(600_000);
    assert_eq!(shared.percentile_ns(50), 1_000_000);
}

#[test]
fn totals_are_counted() {
    let totals = SharedCounters::new();
    totals.count_produced();
    totals.count_produced();
    totals.count_dropped();
    assert_eq!((totals.produced_total(), totals.dropped_total()), (2, 1));
}

#[test]
fn totals_start_at_zero_and_start_over() {
    let mut totals = Totals::new();
    assert_eq!((totals.produced, totals.dropped), (0, 0));
    totals.count_produced();
    totals.count_dropped();
    assert_eq!((totals.produced, totals.dropped), (1, 1));
    totals.produced = u64::MAX;
    totals.count_produced();
    assert_eq!((totals.produced, totals.dropped), (0, 1));
    let shared = SharedCounters::new();
    assert_eq!((shared.produced_total(), shared.dropped_total()), (0, 0));
    assert_eq!(ConcurrentHistogram::new().percentile_ns(99), 0);
}

#[test]
fn consumers_of_the_plain_queue_serve_stop_or_sleep() {
    assert!(matches!(after_take(FifoTake::Item(plain(3))), FifoNext::Serve(task) if task.payload == 3));
    assert!(matches!(after_take::<u64>(FifoTake::Finished), FifoNext::Stop));
    assert!(matches!(after_take::<u64>(FifoTake::Wait), FifoNext::Sleep));
}

#[test]
fn the_plain_queue_is_first_in_first_out_and_bounded() {
    let mut queue = FifoState::new();
    assert!(matches!(queue.take(), FifoTake::Wait));
    assert!(queue.enqueue(2, plain(1)));
    assert!(queue.enqueue(2, plain(2)));
    assert!(!queue.enqueue(2, plain(3)));
    assert_eq!(queue.dropped(), 1);
    assert!(matches!(queue.take(), FifoTake::Item(task) if task.payload == 1));
    assert!(queue.close());
    assert!(!queue.close());
    assert!(!queue.enqueue(2, plain(4)));
    assert_eq!(queue.dropped(), 1);
    assert!(matches!(queue.take(), FifoTake::Item(task) if task.payload == 2));
    assert!(matches!(queue.take(), FifoTake::Finished));
}

#[test]
fn the_shared_plain_queue_does_the_same() {
    let queue = FifoQueue::new(1);
    assert!(queue.enqueue(plain(1)));
    assert!(!queue.enqueue(plain(2)));
    assert_eq!(queue.dropped(), 1);
    assert!(matches!(queue.dequeue_blocking(), Some(task) if task.payload == 1));
    queue.close();
    assert!(queue.dequeue_blocking().is_none());
    assert!(!queue.enqueue(plain(3)));
}

#[test]
fn runs_have_figures() {
    let mut stats = SchedulerStats::default();
    stats.enqueued = 4;
    stats.dequeued = 3;
    stats.dropped = 2;
    stats.expired = 1;
    let figures = scheduler_figures(&stats, 6);
    assert_eq!((figures.enqueued, figures.dequeued), (4, 3));
    assert_eq!((figures.dropped, figures.expired, figures.produced_total), (2, 1, 6));
    assert_eq!(fifo_figures(10, 3, 5, 1).enqueued, 7);
    assert_eq!(fifo_figures(1, 3, 0, 0).enqueued, 0);
}

#[test]
fn thirty_tenants_feed_the_pipeline() {
    let profiles = tenant_profiles();
    assert_eq!(profiles.len(), 30);
    assert_eq!((profiles[0].id, profiles[0].name.as_str()), (1, "batch-01"));
    assert_eq!(profiles[9].name, "batch-10");
    assert_eq!((profiles[10].id, profiles[10].name.as_str()), (11, "etl-01"));
    assert_eq!(profiles[29].name, "api-10");
    assert_eq!(profiles[9].tier, TenantTier::Batch);
    assert_eq!((profiles[2].base_kb, profiles[2].submit_every_us), (1260, 940));
    assert_eq!((profiles[12].base_kb, profiles[12].base_cost), (430, 4));
    assert_eq!((profiles[22].base_kb, profiles[22].submit_every_us), (70, 196));
    let index = tenant_index(&profiles);
    assert_eq!(index.get(&25), Some(&24));
    assert_eq!(index.get(&31), None);
    let config = example_config();
    assert_eq!((config.worker_count, config.run_seconds, config.log_every_s), (4, 15, 1));
    assert_eq!(config.scheduler.max_global, 60_000);
}

#[test]
fn jobs_cost_by_size() {
    assert_eq!(pipeline_stage_ms(0), [2, 3, 2, 1]);
    assert_eq!(pipeline_stage_ms(1200), [8, 10, 7, 5]);
    assert_eq!(job_cost(8, 1200), 12);
    assert_eq!(job_cost(8, 300), 8);
    assert_eq!(job_cost(0, 60), 1);
    let profiles = tenant_profiles();
    let plan = ProducerPlan::from_profile(&profiles[0]);
    let task = plan.task(402, at(9));
    assert_eq!(task.payload.bytes_kb, 1201);
    assert_eq!(task.payload.stage_ms, [8, 10, 7, 5]);
    assert_eq!((task.cost, task.priority), (12, Priority::Normal));
    assert_eq!((task.enqueue_ts, task.deadline), (at(9), None));
}

#[test]
fn work_done_is_summed_up() {
    let profiles = tenant_profiles();
    let mut counts: Vec<u64> = vec![0; 30];
    for index in [0, 0, 0, 15, 29, 29, 30] {
        record_count(&mut counts, index);
    }
    assert_eq!(tier_counts(&profiles, &counts), (3, 1, 2));
    assert_eq!(tier_counts(&profiles, &vec![u64::MAX, 1]), (u64::MAX, 0, 0));
    let top: Vec<(u64, u64)> = by_served(&profiles, &counts)
        .iter()
        .take(4)
        .map(|t| (t.tenant.as_u64(), t.count))
        .collect();
    assert_eq!(top, vec![(1, 3), (30, 2), (16, 1), (2, 0)]);
    assert_eq!(busy_percent(30_000_000_000, 15), 200);
    assert_eq!(busy_percent(1, 0), 0);
}
