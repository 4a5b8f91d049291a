//! Load scenarios, the first-in first-out queue they compare the scheduler with, and
//! the figures that are read off a run.
use std::collections::{HashMap, VecDeque};

use vstd::prelude::*;

use crate::api::{
    BackpressurePolicy, Priority, QueueTimeBucket, SchedulerConfig, SchedulerStats, Task, TenantKey,
};
use crate::figures;
use crate::metrics::percentile;
use crate::model;
use crate::sync::{Guarded, Lock, Ticks, Trial, WorkSignal};
use crate::time::{Duration, Instant};

verus! {

/// Settings that scenarios fall back on.
#[derive(Clone, Debug)]
pub struct BenchConfig {
    /// Length of a run in seconds.
    pub default_run_seconds: u64,
    /// Number of worker threads.
    pub worker_count: usize,
    /// Most tasks pending over all tenants.
    pub max_global: usize,
    /// Most tasks pending for one tenant.
    pub max_per_tenant: usize,
    /// Base quantum.
    pub quantum: u64,
}

impl Default for BenchConfig {
    fn default() -> (c: BenchConfig)
        ensures
            c.default_run_seconds == 8,
            c.worker_count == 2,
            c.max_global == 10_000,
            c.max_per_tenant == 1_000,
            c.quantum == 2,
    {
        BenchConfig {
            default_run_seconds: 8,
            worker_count: 2,
            max_global: 10_000,
            max_per_tenant: 1_000,
            quantum: 2,
        }
    }
}

/// Whether a producer is one of the noisy ones.
#[derive(Copy, Clone, Debug, PartialEq, Eq, Structural)]
pub enum ProducerClass {
    /// Noisy.
    Hot,
    /// Quiet.
    Cold,
}

/// What a producer does over and over.
#[derive(Copy, Clone, Debug, PartialEq, Eq, Structural)]
pub struct ProducerProfile {
    /// Tenant it produces for.
    pub tenant: TenantKey,
    /// Whether it is one of the noisy ones.
    pub class: ProducerClass,
    /// Pause between two tasks in milliseconds.
    pub interval_ms: u64,
    /// Priority of its tasks.
    pub priority: Priority,
    /// Cost of its tasks.
    pub cost: u64,
    /// Time that its tasks are good for in milliseconds.
    pub deadline_ms: Option<u64>,
}

/// Content of a task.
#[derive(Copy, Clone, Debug, PartialEq, Eq, Structural)]
pub struct BenchPayload {
    /// Kind of producer that it came from.
    pub class: ProducerClass,
}

/// A load to run.
#[derive(Clone, Debug)]
pub struct Scenario {
    /// Short name.
    pub name: &'static str,
    /// What it is about.
    pub description: &'static str,
    /// Length of the run in seconds, if not the default.
    pub run_seconds: Option<u64>,
    /// Time that a worker spends on a task in milliseconds.
    pub work_ms: u64,
    /// Most tasks pending over all tenants, if not the default.
    pub max_global: Option<usize>,
    /// Most tasks pending for one tenant, if not the default.
    pub max_per_tenant: Option<usize>,
    /// The producers.
    pub producers: Vec<ProducerProfile>,
    /// Whether the tail latency of the quiet producers is reported.
    pub report_cold_tail: bool,
}

/// Producers for the tenants from `first` up to, but without, `end`, all alike but for
/// the tenant.
pub open spec fn crowd(first: u64, end: u64, like: ProducerProfile) -> Seq<ProducerProfile> {
    Seq::new(
        (end - first) as nat,
        |i: int| ProducerProfile { tenant: TenantKey((first + i) as u64), ..like },
    )
}

/// Appends producers for a range of tenants.
fn append_crowd(producers: &mut Vec<ProducerProfile>, first: u64, end: u64, like: ProducerProfile)
    requires
        first <= end,
    ensures
        final(producers)@ == old(producers)@ + crowd(first, end, like),
{
    let mut tenant: u64 = first;
    assert(producers@ =~= old(producers)@ + crowd(first, end, like).take(0));
    while tenant < end
        invariant
            first <= tenant <= end,
            producers@ == old(producers)@ + crowd(first, end, like).take(tenant - first),
        decreases end - tenant,
    {
        producers.push(ProducerProfile { tenant: TenantKey(tenant), ..like });
        tenant += 1;
        assert(producers@ =~= old(producers)@ + crowd(first, end, like).take(tenant - first));
    }
    assert(producers@ =~= old(producers)@ + crowd(first, end, like));
}

/// A producer like those of a crowd.
pub open spec fn like(
    class: ProducerClass,
    interval_ms: u64,
    priority: Priority,
    deadline_ms: Option<u64>,
) -> ProducerProfile {
    ProducerProfile {
        tenant: TenantKey(0),
        class,
        interval_ms,
        priority,
        cost: 1,
        deadline_ms,
    }
}

/// A producer like those of a crowd.
fn profile_like(
    class: ProducerClass,
    interval_ms: u64,
    priority: Priority,
    deadline_ms: Option<u64>,
) -> (p: ProducerProfile)
    ensures
        p == like(class, interval_ms, priority, deadline_ms),
{
    ProducerProfile { tenant: TenantKey(0), class, interval_ms, priority, cost: 1, deadline_ms }
}

/// One noisy tenant against many quiet ones.
pub open spec fn is_hot_tenant_sustained(s: Scenario) -> bool {
    &&& s.name@ == "hot_tenant_sustained"@
    &&& s.description@ == "Un tenant hot sostenido compite contra muchos tenants cold"@
    &&& s.run_seconds == Some(6u64)
    &&& s.work_ms == 1
    &&& s.max_global == Some(50_000usize)
    &&& s.max_per_tenant == Some(1_000usize)
    &&& s.producers@ == crowd(1, 2, like(ProducerClass::Hot, 0, Priority::High, None)) + crowd(
        2,
        22,
        like(ProducerClass::Cold, 15, Priority::Low, None),
    )
    &&& s.report_cold_tail
}

/// One noisy tenant against many quiet ones.
pub fn hot_tenant_sustained() -> (s: Scenario)
    ensures
        is_hot_tenant_sustained(s),
{
    let mut producers: Vec<ProducerProfile> = Vec::new();
    append_crowd(&mut producers, 1, 2, profile_like(ProducerClass::Hot, 0, Priority::High, None));
    append_crowd(&mut producers, 2, 22, profile_like(ProducerClass::Cold, 15, Priority::Low, None));
    assert(producers@ =~= crowd(1, 2, like(ProducerClass::Hot, 0, Priority::High, None)) + crowd(
        2,
        22,
        like(ProducerClass::Cold, 15, Priority::Low, None),
    ));
    Scenario {
        name: "hot_tenant_sustained",
        description: "Un tenant hot sostenido compite contra muchos tenants cold",
        run_seconds: Some(6),
        work_ms: 1,
        max_global: Some(50_000),
        max_per_tenant: Some(1_000),
        producers,
        report_cold_tail: true,
    }
}

/// Many producers at once.
pub open spec fn is_burst_massive(s: Scenario) -> bool {
    &&& s.name@ == "burst_massive"@
    &&& s.description@ == "Burst masivo de productores simultáneos"@
    &&& s.run_seconds == Some(4u64)
    &&& s.work_ms == 2
    &&& s.max_global == Some(6_000usize)
    &&& s.max_per_tenant == Some(200usize)
    &&& s.producers@ == crowd(1, 161, like(ProducerClass::Cold, 0, Priority::Normal, None))
    &&& !s.report_cold_tail
}

/// Many producers at once.
pub fn burst_massive() -> (s: Scenario)
    ensures
        is_burst_massive(s),
{
    let mut producers: Vec<ProducerProfile> = Vec::new();
    append_crowd(
        &mut producers,
        1,
        161,
        profile_like(ProducerClass::Cold, 0, Priority::Normal, None),
    );
    assert(producers@ =~= crowd(1, 161, like(ProducerClass::Cold, 0, Priority::Normal, None)));
    Scenario {
        name: "burst_massive",
        description: "Burst masivo de productores simultáneos",
        run_seconds: Some(4),
        work_ms: 2,
        max_global: Some(6_000),
        max_per_tenant: Some(200),
        producers,
        report_cold_tail: false,
    }
}

/// All priorities under load.
pub open spec fn is_mixed_priorities(s: Scenario) -> bool {
    &&& s.name@ == "mixed_priorities"@
    &&& s.description@ == "Mezcla de prioridades High/Normal/Low bajo carga"@
    &&& s.run_seconds is None
    &&& s.work_ms == 2
    &&& s.max_global is None
    &&& s.max_per_tenant is None
    &&& s.producers@ == crowd(1, 21, like(ProducerClass::Hot, 2, Priority::High, None)) + crowd(
        21,
        81,
        like(ProducerClass::Cold, 4, Priority::Normal, None),
    ) + crowd(81, 141, like(ProducerClass::Cold, 7, Priority::Low, None))
    &&& !s.report_cold_tail
}

/// All priorities under load.
pub fn mixed_priorities() -> (s: Scenario)
    ensures
        is_mixed_priorities(s),
{
    let mut producers: Vec<ProducerProfile> = Vec::new();
    append_crowd(&mut producers, 1, 21, profile_like(ProducerClass::Hot, 2, Priority::High, None));
    append_crowd(
        &mut producers,
        21,
        81,
        profile_like(ProducerClass::Cold, 4, Priority::Normal, None),
    );
    append_crowd(
        &mut producers,
        81,
        141,
        profile_like(ProducerClass::Cold, 7, Priority::Low, None),
    );
    assert(producers@ =~= crowd(1, 21, like(ProducerClass::Hot, 2, Priority::High, None)) + crowd(
        21,
        81,
        like(ProducerClass::Cold, 4, Priority::Normal, None),
    ) + crowd(81, 141, like(ProducerClass::Cold, 7, Priority::Low, None)));
    Scenario {
        name: "mixed_priorities",
        description: "Mezcla de prioridades High/Normal/Low bajo carga",
        run_seconds: None,
        work_ms: 2,
        max_global: None,
        max_per_tenant: None,
        producers,
        report_cold_tail: false,
    }
}

/// Deadlines that are hard to meet.
pub open spec fn is_deadline_expiration(s: Scenario) -> bool {
    &&& s.name@ == "deadline_expiration"@
    &&& s.description@ == "Deadlines cortos para forzar expiraciones en dequeue"@
    &&& s.run_seconds == Some(5u64)
    &&& s.work_ms == 6
    &&& s.max_global == Some(4_000usize)
    &&& s.max_per_tenant == Some(128usize)
    &&& s.producers@ == crowd(1, 81, like(ProducerClass::Cold, 1, Priority::Normal, Some(5u64)))
    &&& !s.report_cold_tail
}

/// Deadlines that are hard to meet.
pub fn deadline_expiration() -> (s: Scenario)
    ensures
        is_deadline_expiration(s),
{
    let mut producers: Vec<ProducerProfile> = Vec::new();
    append_crowd(
        &mut producers,
        1,
        81,
        profile_like(ProducerClass::Cold, 1, Priority::Normal, Some(5)),
    );
    assert(producers@ =~= crowd(1, 81, like(ProducerClass::Cold, 1, Priority::Normal, Some(5u64))));
    Scenario {
        name: "deadline_expiration",
        description: "Deadlines cortos para forzar expiraciones en dequeue",
        run_seconds: Some(5),
        work_ms: 6,
        max_global: Some(4_000),
        max_per_tenant: Some(128),
        producers,
        report_cold_tail: false,
    }
}

/// Limits that are hit all the time.
pub open spec fn is_capacity_pressure(s: Scenario) -> bool {
    &&& s.name@ == "capacity_pressure"@
    &&& s.description@ == "Presión de capacidad global y por tenant"@
    &&& s.run_seconds == Some(5u64)
    &&& s.work_ms == 3
    &&& s.max_global == Some(2_000usize)
    &&& s.max_per_tenant == Some(40usize)
    &&& s.producers@ == crowd(1, 121, like(ProducerClass::Cold, 0, Priority::Normal, None))
    &&& !s.report_cold_tail
}

/// Limits that are hit all the time.
pub fn capacity_pressure() -> (s: Scenario)
    ensures
        is_capacity_pressure(s),
{
    let mut producers: Vec<ProducerProfile> = Vec::new();
    append_crowd(
        &mut producers,
        1,
        121,
        profile_like(ProducerClass::Cold, 0, Priority::Normal, None),
    );
    assert(producers@ =~= crowd(1, 121, like(ProducerClass::Cold, 0, Priority::Normal, None)));
    Scenario {
        name: "capacity_pressure",
        description: "Presión de capacidad global y por tenant",
        run_seconds: Some(5),
        work_ms: 3,
        max_global: Some(2_000),
        max_per_tenant: Some(40),
        producers,
        report_cold_tail: false,
    }
}

/// All scenarios, in the order in which they are run.
pub fn scenarios() -> (all: Vec<Scenario>)
    ensures
        all@.len() == 5,
        is_hot_tenant_sustained(all@[0]),
        is_burst_massive(all@[1]),
        is_mixed_priorities(all@[2]),
        is_deadline_expiration(all@[3]),
        is_capacity_pressure(all@[4]),
{
    let mut all: Vec<Scenario> = Vec::new();
    all.push(hot_tenant_sustained());
    all.push(burst_massive());
    all.push(mixed_priorities());
    all.push(deadline_expiration());
    all.push(capacity_pressure());
    all
}

/// The number if there is one, or else the fallback.
pub open spec fn or_else<A>(value: Option<A>, fallback: A) -> A {
    match value {
        Some(v) => v,
        None => fallback,
    }
}

/// Length of a run in seconds: as asked for, or else as the scenario says, or else the
/// default.
pub fn run_seconds(config: &BenchConfig, scenario: &Scenario, asked: Option<u64>) -> (n: u64)
    ensures
        n == or_else(asked, or_else(scenario.run_seconds, config.default_run_seconds)),
{
    match asked {
        Some(n) => n,
        None => match scenario.run_seconds {
            Some(n) => n,
            None => config.default_run_seconds,
        },
    }
}

/// Most tasks pending over all tenants in a scenario.
pub fn max_global(config: &BenchConfig, scenario: &Scenario) -> (n: usize)
    ensures
        n == or_else(scenario.max_global, config.max_global),
{
    match scenario.max_global {
        Some(n) => n,
        None => config.max_global,
    }
}

/// Configuration of the scheduler for a scenario.
pub fn scheduler_config(config: &BenchConfig, scenario: &Scenario) -> (c: SchedulerConfig)
    ensures
        c.shards == 4,
        c.max_global == or_else(scenario.max_global, config.max_global),
        c.max_per_tenant == or_else(scenario.max_per_tenant, config.max_per_tenant),
        c.quantum == config.quantum,
        c.quantum_by_tenant@ == Map::<u64, u64>::empty(),
        c.quantum_provider is None,
        c.backpressure == BackpressurePolicy::Reject,
        c.backpressure_by_tenant@ == Map::<u64, BackpressurePolicy>::empty(),
        c.top_tenants_capacity == 64,
{
    SchedulerConfig {
        shards: 4,
        max_global: max_global(config, scenario),
        max_per_tenant: match scenario.max_per_tenant {
            Some(n) => n,
            None => config.max_per_tenant,
        },
        quantum: config.quantum,
        quantum_by_tenant: HashMap::new(),
        quantum_provider: None,
        backpressure: BackpressurePolicy::Reject,
        backpressure_by_tenant: HashMap::new(),
        top_tenants_capacity: 64,
    }
}

/// The next task of a producer.
pub fn next_task(profile: &ProducerProfile, now: Instant) -> (task: Task<BenchPayload>)
    ensures
        task.payload == (BenchPayload { class: profile.class }),
        task.enqueue_ts == now,
        task.priority == profile.priority,
        task.cost == profile.cost,
        match profile.deadline_ms {
            Some(ms) => task.deadline matches Some(d) && d.nanos == crate::time::clamp_nanos(
                now.nanos + ms * 1_000_000,
            ),
            None => task.deadline is None,
        },
{
    Task {
        payload: BenchPayload { class: profile.class },
        enqueue_ts: now,
        deadline: match profile.deadline_ms {
            Some(ms) => Some(now.after(Duration::from_millis(ms))),
            None => None,
        },
        priority: profile.priority,
        cost: profile.cost,
    }
}

/// Upper bounds of the histogram that runs keep, in nanoseconds. What is above the
/// last is not counted.
pub open spec fn bench_bounds() -> Seq<u64> {
    seq![
        10_000u64,
        50_000,
        100_000,
        500_000,
        1_000_000,
        5_000_000,
        10_000_000,
        50_000_000,
        100_000_000,
        500_000_000,
        1_000_000_000,
        5_000_000_000,
        10_000_000_000,
        30_000_000_000,
        60_000_000_000,
        120_000_000_000,
    ]
}

/// The bounds.
fn bounds() -> (b: [u64; 16])
    ensures
        b@ == bench_bounds(),
{
    let b = [
        10_000,
        50_000,
        100_000,
        500_000,
        1_000_000,
        5_000_000,
        10_000_000,
        50_000_000,
        100_000_000,
        500_000_000,
        1_000_000_000,
        5_000_000_000,
        10_000_000_000,
        30_000_000_000,
        60_000_000_000,
        120_000_000_000,
    ];
    assert(b@ =~= bench_bounds());
    b
}

/// `i` is the first bucket whose bound is not below the time.
pub open spec fn falls_into(ns: u64, i: int) -> bool {
    &&& 0 <= i < bench_bounds().len()
    &&& ns <= bench_bounds()[i]
    &&& forall|j: int| 0 <= j < i ==> ns > #[trigger] bench_bounds()[j]
}

/// Counts of queue times by bucket.
#[derive(Debug)]
pub struct QueueTimes {
    counts: [u64; 16],
}

impl View for QueueTimes {
    type V = Seq<u64>;

    closed spec fn view(&self) -> Seq<u64> {
        self.counts@
    }
}

/// The counts with their bounds.
pub open spec fn with_bounds(counts: Seq<u64>) -> Seq<QueueTimeBucket> {
    Seq::new(
        bench_bounds().len(),
        |i: int| QueueTimeBucket { le_ns: bench_bounds()[i], count: counts[i] },
    )
}

impl QueueTimes {
    /// No queue times.
    pub fn new() -> (q: QueueTimes)
        ensures
            q@ == Seq::new(16, |i: int| 0u64),
    {
        let q = QueueTimes { counts: [0, 0, 0, 0, 0, 0, 0, 0, 0, 0, 0, 0, 0, 0, 0, 0] };
        assert(q@ =~= Seq::new(16, |i: int| 0u64));
        q
    }

    /// One more queue time.
    pub fn observe(&mut self, ns: u64)
        ensures
            old(self)@.len() == 16,
            ns <= 120_000_000_000 ==> exists|i: int| #[trigger]
                falls_into(ns, i) && final(self)@ == old(self)@.update(
                    i,
                    old(self)@[i].wrapping_add(1),
                ),
            ns > 120_000_000_000 ==> final(self)@ == old(self)@,
    {
        let b = bounds();
        let mut i: usize = 0;
        while i < 16 && ns > b[i]
            invariant
                i <= 16,
                b@ == bench_bounds(),
                forall|j: int| 0 <= j < i ==> ns > #[trigger] bench_bounds()[j],
            decreases 16 - i,
        {
            i += 1;
        }
        if i < 16 {
            self.counts[i] = self.counts[i].wrapping_add(1);
            assert(falls_into(ns, i as int));
            assert(self@ =~= old(self)@.update(i as int, old(self)@[i as int].wrapping_add(1)));
            assert(ns <= bench_bounds()[i as int] <= 120_000_000_000);
        } else {
            assert(ns > bench_bounds()[15]);
        }
    }

    /// Upper bound of the bucket in which so many hundredths of the queue times are
    /// reached; zero if there are none.
    pub fn percentile_ns(&self, hundredths: u64) -> (ns: u64)
        requires
            hundredths <= 100,
        ensures
            ns == model::percentile(with_bounds(self@), hundredths as int),
    {
        let b = bounds();
        let mut buckets: Vec<QueueTimeBucket> = Vec::new();
        for i in 0..16usize
            invariant
                b@ == bench_bounds(),
                buckets@ == with_bounds(self@).take(i as int),
        {
            buckets.push(QueueTimeBucket { le_ns: b[i], count: self.counts[i] });
            assert(buckets@ =~= with_bounds(self@).take(i + 1));
        }
        assert(buckets@ =~= with_bounds(self@));
        percentile(&buckets, hundredths)
    }
}

/// The bounds of the histogram ascend, and a percentile holds its share: at least so many
/// hundredths of the queue times that were counted are in buckets with bounds up to it, and
/// fewer are in those with lower bounds. With no queue times it is zero.
pub proof fn law_bench_percentiles_hold_their_share(counts: Seq<u64>, hundredths: int)
    requires
        1 <= hundredths <= 100,
    ensures
        ({
            let buckets = with_bounds(counts);
            let total = model::observations(buckets);
            let p = model::percentile(buckets, hundredths);
            &&& figures::ascending(buckets)
            &&& total == 0 ==> p == 0
            &&& total > 0 ==> 100 * figures::up_to(buckets, p) >= hundredths * total
            &&& total > 0 ==> 100 * figures::up_to(buckets, p - 1) < hundredths * total
        }),
{
    figures::law_percentiles_hold_their_share(with_bounds(counts), hundredths);
}

/// A queue time is counted once, where it belongs: for each bound, the queue times up to it
/// are one more if this one is no longer, and as many as before if it is.
pub proof fn law_bench_queue_times_are_counted(counts: Seq<u64>, ns: u64, k: int, i: int)
    requires
        counts.len() == 16,
        falls_into(ns, k),
        counts[k] < u64::MAX,
        0 <= i < 16,
    ensures
        ({
            let earlier = with_bounds(counts);
            let later = with_bounds(counts.update(k, counts[k].wrapping_add(1)));
            let bound = earlier[i].le_ns as int;
            figures::up_to(later, bound) == figures::up_to(earlier, bound) + if ns <= bound {
                1int
            } else {
                0
            }
        }),
{
    let earlier = with_bounds(counts);
    let later = with_bounds(counts.update(k, counts[k].wrapping_add(1)));
    assert(earlier.take(16) =~= earlier);
    assert(later.take(16) =~= later);
    figures::lemma_one_more(earlier, later, k, 16, earlier[i].le_ns as int);
    let bounds = bench_bounds();
    if k <= i {
        assert(bounds[k] <= bounds[i]);
    } else {
        assert(ns > bounds[i]);
        assert(bounds[i] < bounds[k]);
    }
}

impl Guarded for QueueTimes {
    type Terms = ();

    open spec fn kept(&self, terms: (), first: Self) -> bool {
        true
    }
}

/// Histogram of queue times that threads share.
pub struct ConcurrentHistogram {
    times: Lock<QueueTimes>,
}

impl ConcurrentHistogram {
    /// The counts that the histogram started from.
    pub closed spec fn start(&self) -> Seq<u64> {
        self.times.first()@
    }

    /// No queue times.
    pub fn new() -> (h: ConcurrentHistogram)
        ensures
            h.start() == Seq::new(16, |i: int| 0u64),
    {
        ConcurrentHistogram { times: Lock::new((), QueueTimes::new()) }
    }

    /// The counts behind the lock were given this queue time.
    pub open spec fn was_told(&self, value_ns: u64) -> bool {
        exists|k: &mut QueueTimes| #[trigger]
            call_ensures(QueueTimes::observe, (k, value_ns), ())
    }

    /// The counts behind the lock were asked for this percentile, and gave `ns`.
    pub open spec fn was_asked(&self, hundredths: u64, ns: u64) -> bool {
        exists|k: &QueueTimes| #[trigger]
            call_ensures(QueueTimes::percentile_ns, (k, hundredths), ns)
    }

    /// One more queue time.
    pub fn observe(&self, value_ns: u64)
        ensures
            self.was_told(value_ns),
    {
        let step = |times: &mut QueueTimes|
            ensures
                exists|k: &mut QueueTimes|
                    *k == *old(times) && #[trigger] call_ensures(
                        QueueTimes::observe,
                        (k, value_ns),
                        (),
                    ),
                value_ns <= 120_000_000_000 ==> exists|i: int| #[trigger]
                    falls_into(value_ns, i) && final(times)@ == old(times)@.update(
                        i,
                        old(times)@[i].wrapping_add(1),
                    ),
                value_ns > 120_000_000_000 ==> final(times)@ == old(times)@,
            {
                times.observe(value_ns);
            };
        self.times.with(step);
    }

    /// The given percentile of the queue times so far.
    pub fn percentile_ns(&self, hundredths: u64) -> (ns: u64)
        requires
            hundredths <= 100,
        ensures
            exists|counts: Seq<u64>|
                ns == #[trigger] model::percentile(with_bounds(counts), hundredths as int),
            self.was_asked(hundredths, ns),
    {
        let step = |times: &mut QueueTimes| -> (ns: u64)
            ensures
                exists|k: &QueueTimes|
                    *k == *old(times) && #[trigger] call_ensures(
                        QueueTimes::percentile_ns,
                        (k, hundredths),
                        ns,
                    ),
                ns == model::percentile(with_bounds(old(times)@), hundredths as int),
            { times.percentile_ns(hundredths) };
        let ns: u64 = self.times.with(step);
        proof {
            let times: &mut QueueTimes = choose|times: &mut QueueTimes|
                call_ensures(step, (times,), ns);
            assert(ns == model::percentile(with_bounds(times@), hundredths as int));
        }
        ns
    }
}

/// Totals of a run.
#[derive(Debug)]
pub struct Totals {
    /// Tasks produced.
    pub produced: u64,
    /// Tasks turned away.
    pub dropped: u64,
}

impl Totals {
    /// Nothing produced, nothing turned away.
    pub fn new() -> (t: Totals)
        ensures
            t == (Totals { produced: 0, dropped: 0 }),
    {
        Totals { produced: 0, dropped: 0 }
    }

    /// Counts a task produced.
    pub fn count_produced(&mut self)
        ensures
            final(self).produced == old(self).produced.wrapping_add(1),
            final(self).dropped == old(self).dropped,
    {
        self.produced = self.produced.wrapping_add(1);
    }

    /// Counts a task turned away.
    pub fn count_dropped(&mut self)
        ensures
            final(self).produced == old(self).produced,
            final(self).dropped == old(self).dropped.wrapping_add(1),
    {
        self.dropped = self.dropped.wrapping_add(1);
    }

    /// Tasks produced.
    pub fn produced(&self) -> (n: u64)
        ensures
            n == self.produced,
    {
        self.produced
    }

    /// Tasks turned away.
    pub fn dropped(&self) -> (n: u64)
        ensures
            n == self.dropped,
    {
        self.dropped
    }
}

impl Guarded for Totals {
    type Terms = ();

    open spec fn kept(&self, terms: (), first: Self) -> bool {
        true
    }
}

/// Totals of a run that threads share.
pub struct SharedCounters {
    totals: Lock<Totals>,
}

impl SharedCounters {
    /// The totals that the counters started from.
    pub closed spec fn start(&self) -> Totals {
        self.totals.first()
    }

    /// Nothing produced, nothing turned away.
    pub fn new() -> (c: SharedCounters)
        ensures
            c.start() == (Totals { produced: 0, dropped: 0 }),
    {
        SharedCounters { totals: Lock::new((), Totals::new()) }
    }

    /// Counts a task produced.
    pub fn count_produced(&self)
        ensures
            exists|k: &mut Totals| #[trigger] call_ensures(Totals::count_produced, (k,), ()),
    {
        let step = |totals: &mut Totals|
            ensures
                exists|k: &mut Totals|
                    *k == *old(totals) && #[trigger] call_ensures(Totals::count_produced, (k,), ()),
                final(totals).produced == old(totals).produced.wrapping_add(1),
                final(totals).dropped == old(totals).dropped,
            {
                totals.count_produced();
            };
        self.totals.with(step);
    }

    /// Counts a task turned away.
    pub fn count_dropped(&self)
        ensures
            exists|k: &mut Totals| #[trigger] call_ensures(Totals::count_dropped, (k,), ()),
    {
        let step = |totals: &mut Totals|
            ensures
                exists|k: &mut Totals|
                    *k == *old(totals) && #[trigger] call_ensures(Totals::count_dropped, (k,), ()),
                final(totals).produced == old(totals).produced,
                final(totals).dropped == old(totals).dropped.wrapping_add(1),
            {
                totals.count_dropped();
            };
        self.totals.with(step);
    }

    /// Tasks produced so far.
    pub fn produced_total(&self) -> (n: u64)
        ensures
            exists|k: &Totals| #[trigger] call_ensures(Totals::produced, (k,), n),
    {
        let step = |totals: &mut Totals| -> (n: u64)
            ensures
                exists|k: &Totals|
                    *k == *old(totals) && #[trigger] call_ensures(Totals::produced, (k,), n),
                n == old(totals).produced,
            { totals.produced() };
        self.totals.with(step)
    }

    /// Tasks turned away so far.
    pub fn dropped_total(&self) -> (n: u64)
        ensures
            exists|k: &Totals| #[trigger] call_ensures(Totals::dropped, (k,), n),
    {
        let step = |totals: &mut Totals| -> (n: u64)
            ensures
                exists|k: &Totals|
                    *k == *old(totals) && #[trigger] call_ensures(Totals::dropped, (k,), n),
                n == old(totals).dropped,
            { totals.dropped() };
        self.totals.with(step)
    }
}

/// View of a first-in first-out queue.
#[verifier::ext_equal]
pub struct FifoView<T> {
    pub queue: Seq<Task<T>>,
    pub closed: bool,
    pub dropped: u64,
}

impl<T> FifoView<T> {
    /// Nothing queued, nothing turned away.
    pub open spec fn empty() -> FifoView<T> {
        FifoView { queue: Seq::empty(), closed: false, dropped: 0 }
    }

    /// A task offered to a queue that holds up to `max`: what becomes of the queue, and
    /// whether it takes the task. A closed queue takes nothing, and a full one counts
    /// what it turns away.
    pub open spec fn enqueue(self, max: usize, task: Task<T>) -> (FifoView<T>, bool) {
        if self.closed {
            (self, false)
        } else if self.queue.len() >= max {
            (FifoView { dropped: self.dropped.wrapping_add(1), ..self }, false)
        } else {
            (FifoView { queue: self.queue.push(task), ..self }, true)
        }
    }

    /// A task asked for.
    pub open spec fn take(self) -> (FifoView<T>, FifoTake<T>) {
        if self.queue.len() > 0 {
            (FifoView { queue: self.queue.drop_first(), ..self }, FifoTake::Item(self.queue[0]))
        } else if self.closed {
            (self, FifoTake::Finished)
        } else {
            (self, FifoTake::Wait)
        }
    }
}

/// What a queue has for a consumer.
pub enum FifoTake<T> {
    /// The task that has waited longest.
    Item(Task<T>),
    /// Nothing, and nothing will come.
    Finished,
    /// Nothing yet.
    Wait,
}

/// What a consumer that asked the queue does next.
pub enum FifoNext<T> {
    /// Serves what it was handed.
    Serve(Task<T>),
    /// Stops.
    Stop,
    /// Sleeps until something changes, and asks again.
    Sleep,
}

/// What a consumer does next, given the queue's answer.
pub fn after_take<T>(found: FifoTake<T>) -> (next: FifoNext<T>)
    ensures
        next == match found {
            FifoTake::Item(task) => FifoNext::Serve(task),
            FifoTake::Finished => FifoNext::Stop,
            FifoTake::Wait => FifoNext::Sleep,
        },
{
    match found {
        FifoTake::Item(task) => FifoNext::Serve(task),
        FifoTake::Finished => FifoNext::Stop,
        FifoTake::Wait => FifoNext::Sleep,
    }
}

/// A bounded first-in first-out queue.
pub struct FifoState<T> {
    queue: VecDeque<Task<T>>,
    closed: bool,
    dropped: u64,
}

impl<T> View for FifoState<T> {
    type V = FifoView<T>;

    closed spec fn view(&self) -> FifoView<T> {
        FifoView { queue: self.queue@, closed: self.closed, dropped: self.dropped }
    }
}

impl<T> Guarded for FifoState<T> {
    type Terms = usize;

    open spec fn kept(&self, max: usize, first: Self) -> bool {
        self@.queue.len() <= max
    }
}

impl<T> FifoState<T> {
    /// Nothing queued, nothing turned away.
    pub fn new() -> (f: FifoState<T>)
        ensures
            f@ == FifoView::<T>::empty(),
    {
        let f = FifoState { queue: VecDeque::new(), closed: false, dropped: 0 };
        assert(f@ =~= FifoView::<T>::empty());
        f
    }

    /// Takes a task in, if it can.
    pub fn enqueue(&mut self, max: usize, task: Task<T>) -> (taken: bool)
        ensures
            (final(self)@, taken) == old(self)@.enqueue(max, task),
    {
        self.offer(max, task).is_none()
    }

    /// Takes a task in, if it can, and gives it back if it cannot.
    pub fn offer(&mut self, max: usize, task: Task<T>) -> (back: Option<Task<T>>)
        ensures
            (final(self)@, back is None) == old(self)@.enqueue(max, task),
            back matches Some(other) ==> other == task,
    {
        if self.closed {
            return Some(task);
        }
        if self.queue.len() >= max {
            self.dropped = self.dropped.wrapping_add(1);
            return Some(task);
        }
        self.queue.push_back(task);
        None
    }

    /// Hands a task out, if there is one.
    pub fn take(&mut self) -> (r: FifoTake<T>)
        ensures
            (final(self)@, r) == old(self)@.take(),
    {
        let front = self.queue.pop_front();
        proof {
            if old(self)@.queue.len() > 0 {
                assert(self@.queue =~= old(self)@.queue.drop_first());
            }
        }
        match front {
            Some(task) => FifoTake::Item(task),
            None => if self.closed {
                FifoTake::Finished
            } else {
                FifoTake::Wait
            },
        }
    }

    /// Takes nothing in any more; says whether that is news.
    pub fn close(&mut self) -> (news: bool)
        ensures
            final(self)@ == (FifoView { closed: true, ..old(self)@ }),
            news == !old(self)@.closed,
    {
        let news = !self.closed;
        self.closed = true;
        news
    }

    /// Tasks turned away so far.
    pub fn dropped(&self) -> (n: u64)
        ensures
            n == self@.dropped,
    {
        self.dropped
    }
}

/// A bounded first-in first-out queue that threads share.
#[verifier::reject_recursive_types(T)]
pub struct FifoQueue<T> {
    state: Lock<FifoState<T>>,
    signal: WorkSignal,
}

impl<T> FifoQueue<T> {
    /// Most tasks that the queue holds.
    pub closed spec fn max(&self) -> usize {
        self.state.terms()
    }

    /// `r` is what the queue has for a consumer in some state, and it was asked.
    pub open spec fn may_take(&self, r: FifoTake<T>) -> bool {
        &&& exists|pre: FifoView<T>| pre.queue.len() <= self.max() && (#[trigger] pre.take()).1 == r
        &&& self.was_asked(r)
    }

    /// The queue behind the lock was asked for a task, and gave `r`.
    pub open spec fn was_asked(&self, r: FifoTake<T>) -> bool {
        exists|k: &mut FifoState<T>|
            k@.queue.len() <= self.max() && #[trigger] call_ensures(
                FifoState::<T>::take,
                (k,),
                r,
            )
    }

    /// The queue behind the lock was offered the task; `back` is what it did not take.
    pub open spec fn was_offered(&self, task: Task<T>, back: Option<Task<T>>) -> bool {
        exists|k: &mut FifoState<T>|
            k@.queue.len() <= self.max() && #[trigger] call_ensures(
                FifoState::<T>::offer,
                (k, self.max(), task),
                back,
            )
    }

    /// The queue behind the lock was closed.
    pub open spec fn was_closed(&self) -> bool {
        exists|k: &mut FifoState<T>, news: bool|
            k@.queue.len() <= self.max() && #[trigger] call_ensures(
                FifoState::<T>::close,
                (k,),
                news,
            )
    }

    /// The queue behind the lock said how many tasks it has turned away.
    pub open spec fn was_counted(&self, n: u64) -> bool {
        exists|k: &FifoState<T>|
            k@.queue.len() <= self.max() && #[trigger] call_ensures(
                FifoState::<T>::dropped,
                (k,),
                n,
            )
    }

    /// The queue as it was at the start.
    pub closed spec fn start(&self) -> FifoView<T> {
        self.state.first()@
    }

    /// A queue for up to `max_global` tasks.
    pub fn new(max_global: usize) -> (q: FifoQueue<T>)
        ensures
            q.max() == max_global,
            q.start() == FifoView::<T>::empty(),
    {
        FifoQueue { state: Lock::new(max_global, FifoState::new()), signal: WorkSignal::new() }
    }

    /// Takes a task in, if it can.
    pub fn enqueue(&self, task: Task<T>) -> (taken: bool)
        ensures
            exists|pre: FifoView<T>|
                pre.queue.len() <= self.max() && taken == (#[trigger] pre.enqueue(
                    self.max(),
                    task,
                )).1,
            exists|back: Option<Task<T>>| #[trigger]
                self.was_offered(task, back) && taken == back is None,
    {
        let max: usize = *self.state.settled();
        let ghost terms = max;
        let ghost first = self.state.first();
        let step = |s: &mut FifoState<T>| -> (back: Option<Task<T>>)
            requires
                old(s).kept(terms, first),
            ensures
                final(s).kept(terms, first),
                (final(s)@, back is None) == old(s)@.enqueue(terms, task),
                exists|k: &mut FifoState<T>|
                    *k == *old(s) && #[trigger] call_ensures(
                        FifoState::<T>::offer,
                        (k, terms, task),
                        back,
                    ),
            { s.offer(max, task) };
        let back = self.state.with(step);
        let taken = back.is_none();
        proof {
            let s: &mut FifoState<T> = choose|s: &mut FifoState<T>|
                s.kept(terms, first) && call_ensures(step, (s,), back);
            let pre = s@;
            assert(taken == pre.enqueue(self.max(), task).1);
            let k = choose|k: &mut FifoState<T>|
                *k == *s && #[trigger] call_ensures(
                    FifoState::<T>::offer,
                    (k, terms, task),
                    back,
                );
            assert(k@.queue.len() <= self.max());
            assert(self.was_offered(task, back));
        }
        if taken {
            self.signal.notify_all();
        }
        taken
    }

    /// What the queue has for a consumer at the moment.
    fn take(&self) -> (r: FifoTake<T>)
        ensures
            self.may_take(r),
    {
        let ghost terms = self.state.terms();
        let ghost first = self.state.first();
        let step = |s: &mut FifoState<T>| -> (r: FifoTake<T>)
            requires
                old(s).kept(terms, first),
            ensures
                final(s).kept(terms, first),
                r == old(s)@.take().1,
                exists|k: &mut FifoState<T>|
                    *k == *old(s) && #[trigger] call_ensures(FifoState::<T>::take, (k,), r),
            { s.take() };
        let r = self.state.with(step);
        proof {
            let s: &mut FifoState<T> = choose|s: &mut FifoState<T>|
                s.kept(terms, first) && call_ensures(step, (s,), r);
            let pre = s@;
            assert(pre.take().1 == r);
            let k = choose|k: &mut FifoState<T>|
                *k == *s && #[trigger] call_ensures(FifoState::<T>::take, (k,), r);
            assert(k@.queue.len() <= self.max());
            assert(self.was_asked(r));
        }
        r
    }

    /// `task` is what a consumer that waits is given in some state.
    pub open spec fn may_give(&self, task: Option<Task<T>>) -> bool {
        match task {
            Some(item) => self.may_take(FifoTake::Item(item)),
            None => self.may_take(FifoTake::Finished),
        }
    }

    /// Asks the queue once for a consumer that waits; says whether it has to go on
    /// waiting.
    fn ask(&self, trial: &mut Trial<(), Option<Task<T>>, ()>) -> (waits: bool)
        requires
            old(trial).result is None,
        ensures
            final(trial).may() == old(trial).may(),
            final(trial).input == old(trial).input,
            waits == final(trial).result is None,
            final(trial).result matches Some(task) ==> self.may_give(task),
    {
        match after_take(self.take()) {
            FifoNext::Serve(task) => {
                trial.result = Some(Some(task));
                false
            },
            FifoNext::Stop => {
                trial.result = Some(None);
                false
            },
            FifoNext::Sleep => true,
        }
    }

    /// Hands a task out, waiting for one if need be; `None` once the queue is closed and
    /// empty.
    pub fn dequeue_blocking(&self) -> (task: Option<Task<T>>)
        ensures
            self.may_give(task),
    {
        let ghost may = |task: Option<Task<T>>| self.may_give(task);
        let trial: Trial<(), Option<Task<T>>, ()> = Trial::new(None, Ghost(may));
        let ghost first = trial;
        let again = |ticks: &mut Ticks, x: &mut Trial<(), Option<Task<T>>, ()>| -> (waits: bool)
            requires
                old(x).result is None,
            ensures
                old(x).follows(&first) ==> final(x).follows(&first),
                waits == final(x).result is None,
            { self.ask(x) };
        self.signal.wait_for_result(trial, again).result.unwrap()
    }

    /// Takes nothing in any more; waiting consumers are told.
    pub fn close(&self)
        ensures
            self.was_closed(),
    {
        let ghost terms = self.state.terms();
        let ghost first = self.state.first();
        let step = |s: &mut FifoState<T>| -> (news: bool)
            requires
                old(s).kept(terms, first),
            ensures
                final(s).kept(terms, first),
                final(s)@ == (FifoView { closed: true, ..old(s)@ }),
                news == !old(s)@.closed,
                exists|k: &mut FifoState<T>|
                    *k == *old(s) && #[trigger] call_ensures(FifoState::<T>::close, (k,), news),
            { s.close() };
        let news = self.state.with(step);
        proof {
            let s: &mut FifoState<T> = choose|s: &mut FifoState<T>|
                s.kept(terms, first) && call_ensures(step, (s,), news);
            let k = choose|k: &mut FifoState<T>|
                *k == *s && #[trigger] call_ensures(FifoState::<T>::close, (k,), news);
            assert(k@.queue.len() <= self.max());
        }
        if news {
            self.signal.notify_all();
        }
    }

    /// Tasks turned away so far.
    pub fn dropped(&self) -> (n: u64)
        ensures
            self.was_counted(n),
    {
        let ghost terms = self.state.terms();
        let ghost first = self.state.first();
        let step = |s: &mut FifoState<T>| -> (n: u64)
            requires
                old(s).kept(terms, first),
            ensures
                final(s).kept(terms, first),
                n == old(s)@.dropped,
                exists|k: &FifoState<T>|
                    *k == *old(s) && #[trigger] call_ensures(FifoState::<T>::dropped, (k,), n),
            { s.dropped() };
        let n: u64 = self.state.with(step);
        proof {
            let s: &mut FifoState<T> = choose|s: &mut FifoState<T>|
                s.kept(terms, first) && call_ensures(step, (s,), n);
            let k = choose|k: &FifoState<T>|
                *k == *s && #[trigger] call_ensures(FifoState::<T>::dropped, (k,), n);
            assert(k@.queue.len() <= self.max());
        }
        n
    }
}

/// The queue after tasks were offered to it, one after the other.
pub open spec fn offered<T>(v: FifoView<T>, max: usize, tasks: Seq<Task<T>>) -> FifoView<T>
    decreases tasks.len(),
{
    if tasks.len() == 0 {
        v
    } else {
        offered(v, max, tasks.drop_last()).enqueue(max, tasks.last()).0
    }
}

/// The queue after it was asked for so many tasks.
pub open spec fn served<T>(v: FifoView<T>, n: nat) -> FifoView<T>
    decreases n,
{
    if n == 0 {
        v
    } else {
        served(v, (n - 1) as nat).take().0
    }
}

/// What was offered is queued.
proof fn lemma_offered<T>(max: usize, tasks: Seq<Task<T>>)
    requires
        tasks.len() <= max,
    ensures
        offered(FifoView::<T>::empty(), max, tasks) == (FifoView {
            queue: tasks,
            ..FifoView::<T>::empty()
        }),
    decreases tasks.len(),
{
    if tasks.len() > 0 {
        lemma_offered(max, tasks.drop_last());
        assert(tasks.drop_last().push(tasks.last()) =~= tasks);
    } else {
        assert(tasks =~= Seq::empty());
    }
}

/// What was asked for is gone.
proof fn lemma_served<T>(v: FifoView<T>, n: nat)
    requires
        n <= v.queue.len(),
    ensures
        served(v, n) == (FifoView { queue: v.queue.skip(n as int), ..v }),
    decreases n,
{
    if n > 0 {
        lemma_served(v, (n - 1) as nat);
        assert(v.queue.skip(n - 1).drop_first() =~= v.queue.skip(n as int));
    } else {
        assert(v.queue.skip(0) =~= v.queue);
    }
}

/// First come, first served: of the tasks that a new queue has room for, the `i`-th one
/// that was offered is the `i`-th one that is handed out, closed or not. When all are gone,
/// a closed queue has nothing more, and an open one has nothing yet. What there is no room
/// for is turned away and counted, and a closed queue takes nothing.
pub proof fn law_first_come_first_served<T>(
    max: usize,
    tasks: Seq<Task<T>>,
    closed: bool,
    i: nat,
    other: Task<T>,
)
    requires
        tasks.len() <= max,
    ensures
        ({
            let full = FifoView { closed, ..offered(FifoView::<T>::empty(), max, tasks) };
            &&& i < tasks.len() ==> served(full, i).take().1 == FifoTake::Item(tasks[i as int])
            &&& served(full, tasks.len()).take().1 == if closed {
                FifoTake::<T>::Finished
            } else {
                FifoTake::<T>::Wait
            }
            &&& full.enqueue(max, other).1 == (!closed && tasks.len() < max)
            &&& full.enqueue(max, other).0.dropped == if !closed && tasks.len() == max {
                1u64
            } else {
                0
            }
        }),
{
    lemma_offered(max, tasks);
    let full = FifoView { closed, ..offered(FifoView::<T>::empty(), max, tasks) };
    lemma_served(full, tasks.len());
    if i < tasks.len() {
        lemma_served(full, i);
    }
}

/// What a worker makes of a task that it took from a first-in first-out queue.
#[derive(Copy, Clone, Debug, PartialEq, Eq, Structural)]
pub enum Served {
    /// Too late.
    Expired,
    /// Served, after so many nanoseconds in the queue.
    After(u64),
}

/// What a worker makes of a task at `now`: a first-in first-out queue does not look at
/// deadlines, so the worker does.
pub fn serve(task: &Task<BenchPayload>, now: Instant) -> (r: Served)
    ensures
        r == if task.expired(now) {
            Served::Expired
        } else {
            Served::After(crate::time::elapsed_nanos(task.enqueue_ts, now) as u64)
        },
{
    if task.is_expired(now) {
        Served::Expired
    } else {
        Served::After(now.nanos_since(task.enqueue_ts))
    }
}

/// Figures of a run.
#[derive(Copy, Clone, Debug, PartialEq, Eq, Structural)]
pub struct RunFigures {
    /// Tasks accepted.
    pub enqueued: u64,
    /// Tasks served.
    pub dequeued: u64,
    /// Tasks turned away.
    pub dropped: u64,
    /// Tasks that came too late.
    pub expired: u64,
    /// Tasks produced.
    pub produced_total: u64,
}

/// Figures of a run of the scheduler.
pub fn scheduler_figures(stats: &SchedulerStats, produced: u64) -> (f: RunFigures)
    ensures
        f == (RunFigures {
            enqueued: stats.enqueued,
            dequeued: stats.dequeued,
            dropped: stats.dropped,
            expired: stats.expired,
            produced_total: produced,
        }),
{
    RunFigures {
        enqueued: stats.enqueued,
        dequeued: stats.dequeued,
        dropped: stats.dropped,
        expired: stats.expired,
        produced_total: produced,
    }
}

/// Figures of a run of the first-in first-out queue: what was produced and not turned
/// away was accepted.
pub fn fifo_figures(produced: u64, dropped: u64, dequeued: u64, expired: u64) -> (f: RunFigures)
    ensures
        f == (RunFigures {
            enqueued: if produced >= dropped {
                (produced - dropped) as u64
            } else {
                0
            },
            dequeued,
            dropped,
            expired,
            produced_total: produced,
        }),
{
    RunFigures {
        enqueued: produced.saturating_sub(dropped),
        dequeued,
        dropped,
        expired,
        produced_total: produced,
    }
}

} // verus!
