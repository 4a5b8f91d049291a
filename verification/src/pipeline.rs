//! A data pipeline as a load for the scheduler: who submits what, what it costs, and
//! how the work done is summed up.
use std::collections::HashMap;

use vstd::prelude::*;

use crate::api::{
    BackpressurePolicy, Priority, SchedulerConfig, Task, TenantCount, TenantKey,
};
use crate::metrics::ranked;
use crate::model;
use crate::text;
use crate::text::append_decimal;
use crate::time::Instant;

verus! {

broadcast use vstd::std_specs::hash::group_hash_axioms;

/// Kind of work that a tenant submits.
#[derive(Copy, Clone, Debug, PartialEq, Eq, Structural)]
pub enum TenantTier {
    /// Large and seldom.
    Batch,
    /// In between.
    Etl,
    /// Small and often.
    Api,
}

/// What a tenant submits.
#[derive(Debug)]
pub struct TenantProfile {
    /// Number of the tenant.
    pub id: u64,
    /// Name of the tenant.
    pub name: String,
    /// Kind of work.
    pub tier: TenantTier,
    /// Least size of a job in kilobytes.
    pub base_kb: u64,
    /// Most that a job is larger than that.
    pub jitter_kb: u64,
    /// Pause between two jobs in microseconds.
    pub submit_every_us: u64,
    /// Least cost of a job.
    pub base_cost: u64,
}

/// A job.
#[derive(Clone, Debug)]
pub struct PipelineJob {
    /// Size in kilobytes.
    pub bytes_kb: u64,
    /// Time that each stage takes in milliseconds.
    pub stage_ms: [u64; 4],
}

/// Settings of a run.
pub struct ExampleConfig {
    /// Number of worker threads.
    pub worker_count: usize,
    /// Length of the run in seconds.
    pub run_seconds: u64,
    /// Seconds between two lines of the log.
    pub log_every_s: u64,
    /// Configuration of the scheduler.
    pub scheduler: SchedulerConfig,
}

/// Settings of a run.
pub fn example_config() -> (c: ExampleConfig)
    ensures
        c.worker_count == 4,
        c.run_seconds == 15,
        c.log_every_s == 1,
        c.scheduler.shards == 1,
        c.scheduler.max_global == 60_000,
        c.scheduler.max_per_tenant == 2_000,
        c.scheduler.quantum == 5,
        c.scheduler.quantum_by_tenant@ == Map::<u64, u64>::empty(),
        c.scheduler.quantum_provider is None,
        c.scheduler.backpressure == BackpressurePolicy::Reject,
        c.scheduler.backpressure_by_tenant@ == Map::<u64, BackpressurePolicy>::empty(),
        c.scheduler.top_tenants_capacity == 10,
{
    ExampleConfig {
        worker_count: 4,
        run_seconds: 15,
        log_every_s: 1,
        scheduler: SchedulerConfig {
            shards: 1,
            max_global: 60_000,
            max_per_tenant: 2_000,
            quantum: 5,
            backpressure: BackpressurePolicy::Reject,
            ..SchedulerConfig::default()
        },
    }
}

/// Two decimal digits.
pub open spec fn two_digits(n: nat) -> Seq<char> {
    if n < 10 {
        "0"@ + text::decimal(n)
    } else {
        text::decimal(n)
    }
}

/// Name of the tenant with this number in its tier.
pub open spec fn tier_name(tier: TenantTier, n: nat) -> Seq<char> {
    match tier {
        TenantTier::Batch => "batch-"@ + two_digits(n),
        TenantTier::Etl => "etl-"@ + two_digits(n),
        TenantTier::Api => "api-"@ + two_digits(n),
    }
}

/// Name of the tenant with this number in its tier.
fn name_in_tier(tier: TenantTier, n: u64) -> (name: String)
    ensures
        name@ == tier_name(tier, n as nat),
{
    let mut name = String::new();
    match tier {
        TenantTier::Batch => {
            name.append("batch-");
        },
        TenantTier::Etl => {
            name.append("etl-");
        },
        TenantTier::Api => {
            name.append("api-");
        },
    }
    if n < 10 {
        name.append("0");
    }
    append_decimal(&mut name, n);
    assert(name@ =~= tier_name(tier, n as nat));
    name
}

/// `p` is the tenant with number `i` of its tier, counted from zero.
pub open spec fn is_profile(p: TenantProfile, tier: TenantTier, i: int) -> bool {
    &&& p.tier == tier
    &&& p.name@ == tier_name(tier, (i + 1) as nat)
    &&& match tier {
        TenantTier::Batch => p.id == i + 1 && p.base_kb == 1200 + i * 30 && p.jitter_kb == 400
            && p.submit_every_us == 900 + i * 20 && p.base_cost == 8,
        TenantTier::Etl => p.id == i + 11 && p.base_kb == 400 + i * 15 && p.jitter_kb == 200
            && p.submit_every_us == 350 + i * 10 && p.base_cost == 4,
        TenantTier::Api => p.id == i + 21 && p.base_kb == 60 + i * 5 && p.jitter_kb == 40
            && p.submit_every_us == 180 + i * 8 && p.base_cost == 1,
    }
}

/// The tenant with number `i` of its tier, counted from zero.
fn profile(tier: TenantTier, i: u64) -> (p: TenantProfile)
    requires
        i < 10,
    ensures
        is_profile(p, tier, i as int),
{
    let name = name_in_tier(tier, i + 1);
    match tier {
        TenantTier::Batch => TenantProfile {
            id: i + 1,
            name,
            tier,
            base_kb: 1200 + i * 30,
            jitter_kb: 400,
            submit_every_us: 900 + i * 20,
            base_cost: 8,
        },
        TenantTier::Etl => TenantProfile {
            id: i + 11,
            name,
            tier,
            base_kb: 400 + i * 15,
            jitter_kb: 200,
            submit_every_us: 350 + i * 10,
            base_cost: 4,
        },
        TenantTier::Api => TenantProfile {
            id: i + 21,
            name,
            tier,
            base_kb: 60 + i * 5,
            jitter_kb: 40,
            submit_every_us: 180 + i * 8,
            base_cost: 1,
        },
    }
}

/// Tier of the tenant at this place in the list.
pub open spec fn tier_at(i: int) -> TenantTier {
    if i < 10 {
        TenantTier::Batch
    } else if i < 20 {
        TenantTier::Etl
    } else {
        TenantTier::Api
    }
}

/// Ten tenants of each tier, numbered from one.
pub fn tenant_profiles() -> (profiles: Vec<TenantProfile>)
    ensures
        profiles@.len() == 30,
        forall|i: int|
            0 <= i < 30 ==> is_profile(#[trigger] profiles@[i], tier_at(i), i % 10)
                && profiles@[i].id == i + 1,
{
    let mut profiles: Vec<TenantProfile> = Vec::new();
    for k in 0..30u64
        invariant
            profiles@.len() == k,
            forall|i: int|
                0 <= i < k ==> is_profile(#[trigger] profiles@[i], tier_at(i), i % 10)
                    && profiles@[i].id == i + 1,
    {
        let tier = if k < 10 {
            TenantTier::Batch
        } else if k < 20 {
            TenantTier::Etl
        } else {
            TenantTier::Api
        };
        profiles.push(profile(tier, k % 10));
    }
    profiles
}

/// Time that each stage takes for a job of this size, in milliseconds.
pub fn pipeline_stage_ms(bytes_kb: u64) -> (ms: [u64; 4])
    ensures
        ms@ == seq![
            (2 + bytes_kb / 200) as u64,
            (3 + bytes_kb / 160) as u64,
            (2 + bytes_kb / 240) as u64,
            (1 + bytes_kb / 300) as u64,
        ],
{
    let ms = [2 + bytes_kb / 200, 3 + bytes_kb / 160, 2 + bytes_kb / 240, 1 + bytes_kb / 300];
    assert(ms@ =~= seq![
        (2 + bytes_kb / 200) as u64,
        (3 + bytes_kb / 160) as u64,
        (2 + bytes_kb / 240) as u64,
        (1 + bytes_kb / 300) as u64,
    ]);
    ms
}

/// Cost of a job: what its size asks for, the least cost of its tenant, and one are all
/// lower bounds, and it is the largest of them.
pub fn job_cost(base_cost: u64, bytes_kb: u64) -> (cost: u64)
    ensures
        cost >= base_cost,
        cost >= bytes_kb / 100,
        cost >= 1,
        cost == base_cost || cost == bytes_kb / 100 || cost == 1,
{
    let size_cost: u64 = bytes_kb / 100;
    let larger: u64 = if base_cost >= size_cost {
        base_cost
    } else {
        size_cost
    };
    if larger == 0 {
        1
    } else {
        larger
    }
}

/// Counts one more at a place, if there is such a place.
pub fn record_count(counts: &mut Vec<u64>, index: usize)
    ensures
        final(counts)@ == if index < old(counts)@.len() {
            old(counts)@.update(index as int, old(counts)@[index as int].wrapping_add(1))
        } else {
            old(counts)@
        },
{
    if index < counts.len() {
        let count: u64 = counts[index].wrapping_add(1);
        counts[index] = count;
    }
}

/// Count at a place, zero where there is none.
pub open spec fn count_at(counts: Seq<u64>, i: int) -> int {
    if 0 <= i < counts.len() {
        counts[i] as int
    } else {
        0
    }
}

/// Counts of all tenants of a tier.
pub open spec fn tier_total(
    profiles: Seq<TenantProfile>,
    counts: Seq<u64>,
    tier: TenantTier,
) -> int
    decreases profiles.len(),
{
    if profiles.len() == 0 {
        0
    } else {
        let before = tier_total(profiles.drop_last(), counts, tier);
        if profiles.last().tier == tier {
            before + count_at(counts, profiles.len() - 1)
        } else {
            before
        }
    }
}

/// Counts of the tiers, as far as a `u64` can hold them.
pub fn tier_counts(profiles: &Vec<TenantProfile>, counts: &Vec<u64>) -> (r: (u64, u64, u64))
    ensures
        r.0 == model::sat(tier_total(profiles@, counts@, TenantTier::Batch)),
        r.1 == model::sat(tier_total(profiles@, counts@, TenantTier::Etl)),
        r.2 == model::sat(tier_total(profiles@, counts@, TenantTier::Api)),
{
    let mut batch: u64 = 0;
    let mut etl: u64 = 0;
    let mut api: u64 = 0;
    for i in 0..profiles.len()
        invariant
            batch == model::sat(
                tier_total(profiles@.take(i as int), counts@, TenantTier::Batch),
            ),
            etl == model::sat(tier_total(profiles@.take(i as int), counts@, TenantTier::Etl)),
            api == model::sat(tier_total(profiles@.take(i as int), counts@, TenantTier::Api)),
            0 <= tier_total(profiles@.take(i as int), counts@, TenantTier::Batch),
            0 <= tier_total(profiles@.take(i as int), counts@, TenantTier::Etl),
            0 <= tier_total(profiles@.take(i as int), counts@, TenantTier::Api),
    {
        proof {
            assert(profiles@.take(i + 1).drop_last() =~= profiles@.take(i as int));
        }
        let value: u64 = if i < counts.len() {
            counts[i]
        } else {
            0
        };
        match profiles[i].tier {
            TenantTier::Batch => {
                batch = batch.saturating_add(value);
            },
            TenantTier::Etl => {
                etl = etl.saturating_add(value);
            },
            TenantTier::Api => {
                api = api.saturating_add(value);
            },
        }
    }
    assert(profiles@.take(profiles@.len() as int) =~= profiles@);
    (batch, etl, api)
}

/// `index` finds the place of each tenant in the list: the last one, if there are
/// several.
pub open spec fn finds(
    index: Map<u64, usize>,
    profiles: Seq<TenantProfile>,
) -> bool {
    &&& forall|i: int| 0 <= i < profiles.len() ==> index.contains_key((#[trigger] profiles[i]).id)
    &&& forall|id: u64| #[trigger]
        index.contains_key(id) ==> index[id] < profiles.len() && profiles[index[id] as int].id == id
            && forall|j: int| index[id] < j < profiles.len() ==> (#[trigger] profiles[j]).id != id
}

/// Where each tenant is in the list.
pub fn tenant_index(profiles: &Vec<TenantProfile>) -> (index: HashMap<u64, usize>)
    ensures
        finds(index@, profiles@),
{
    let mut index: HashMap<u64, usize> = HashMap::new();
    for i in 0..profiles.len()
        invariant
            finds(index@, profiles@.take(i as int)),
    {
        let ghost before = index@;
        let ghost part = profiles@.take(i as int);
        let id: u64 = profiles[i].id;
        index.insert(id, i);
        proof {
            let more = profiles@.take(i + 1);
            assert forall|j: int| 0 <= j < more.len() implies index@.contains_key(
                (#[trigger] more[j]).id,
            ) by {
                if j < i {
                    assert(before.contains_key(part[j].id));
                }
            }
            assert forall|k: u64| #[trigger] index@.contains_key(k) implies index@[k] < more.len()
                && more[index@[k] as int].id == k && forall|j: int|
                index@[k] < j < more.len() ==> (#[trigger] more[j]).id != k by {
                if k != id {
                    assert(before.contains_key(k));
                    assert(part[before[k] as int].id == k);
                    assert forall|j: int| index@[k] < j < more.len() implies (
                    #[trigger] more[j]).id != k by {
                        if j < i {
                            assert(part[j].id != k);
                        }
                    }
                }
            }
        }
    }
    assert(profiles@.take(profiles@.len() as int) =~= profiles@);
    index
}

/// What a producer needs to know of its tenant.
#[derive(Copy, Clone, Debug, PartialEq, Eq, Structural)]
pub struct ProducerPlan {
    /// Least size of a job in kilobytes.
    pub base_kb: u64,
    /// Most that a job is larger than that.
    pub jitter_kb: u64,
    /// Pause between two jobs in microseconds.
    pub submit_every_us: u64,
    /// Least cost of a job.
    pub base_cost: u64,
}

impl ProducerPlan {
    /// The plan for a tenant.
    pub fn from_profile(profile: &TenantProfile) -> (plan: ProducerPlan)
        ensures
            plan == (ProducerPlan {
                base_kb: profile.base_kb,
                jitter_kb: profile.jitter_kb,
                submit_every_us: profile.submit_every_us,
                base_cost: profile.base_cost,
            }),
    {
        ProducerPlan {
            base_kb: profile.base_kb,
            jitter_kb: profile.jitter_kb,
            submit_every_us: profile.submit_every_us,
            base_cost: profile.base_cost,
        }
    }

    /// The task of the job with this number: sizes go round from the least to the most.
    pub fn task(&self, counter: u64, now: Instant) -> (task: Task<PipelineJob>)
        requires
            self.base_kb + self.jitter_kb < u64::MAX,
        ensures
            task.payload.bytes_kb == self.base_kb + counter % (self.jitter_kb + 1) as u64,
            task.payload.stage_ms@ == seq![
                (2 + task.payload.bytes_kb / 200) as u64,
                (3 + task.payload.bytes_kb / 160) as u64,
                (2 + task.payload.bytes_kb / 240) as u64,
                (1 + task.payload.bytes_kb / 300) as u64,
            ],
            task.enqueue_ts == now,
            task.deadline is None,
            task.priority == Priority::Normal,
            task.cost >= self.base_cost,
            task.cost >= task.payload.bytes_kb / 100,
            task.cost >= 1,
            task.cost == self.base_cost || task.cost == task.payload.bytes_kb / 100 || task.cost
                == 1,
    {
        let bytes_kb: u64 = self.base_kb + counter % (self.jitter_kb + 1);
        Task {
            payload: PipelineJob { bytes_kb, stage_ms: pipeline_stage_ms(bytes_kb) },
            enqueue_ts: now,
            deadline: None,
            priority: Priority::Normal,
            cost: job_cost(self.base_cost, bytes_kb),
        }
    }
}

/// Part of the run that workers were busy, in hundredths; zero for a run of no length.
pub fn busy_percent(busy_ns: u64, run_seconds: u64) -> (p: u128)
    ensures
        p == if run_seconds == 0 {
            0
        } else {
            (busy_ns * 100) / (run_seconds * 1_000_000_000)
        },
{
    let elapsed_ns: u128 = run_seconds as u128 * 1_000_000_000;
    if elapsed_ns > 0 {
        (busy_ns as u128 * 100) / elapsed_ns
    } else {
        0
    }
}

/// Count of each tenant.
pub open spec fn tallies(profiles: Seq<TenantProfile>, counts: Seq<u64>) -> Seq<TenantCount> {
    Seq::new(
        profiles.len(),
        |i: int|
            TenantCount {
                tenant: TenantKey(profiles[i].id),
                count: count_at(counts, i) as u64,
            },
    )
}

/// The tenants, most served first.
pub fn by_served(profiles: &Vec<TenantProfile>, counts: &Vec<u64>) -> (sorted: Vec<TenantCount>)
    ensures
        model::ranking(tallies(profiles@, counts@), sorted@),
{
    let mut entries: Vec<TenantCount> = Vec::new();
    for i in 0..profiles.len()
        invariant
            entries@ == tallies(profiles@, counts@).take(i as int),
    {
        let count: u64 = if i < counts.len() {
            counts[i]
        } else {
            0
        };
        entries.push(TenantCount { tenant: TenantKey(profiles[i].id), count });
        assert(entries@ =~= tallies(profiles@, counts@).take(i + 1));
    }
    assert(entries@ =~= tallies(profiles@, counts@));
    ranked(&entries)
}

/// Counts of all tenants.
pub open spec fn total(n: nat, counts: Seq<u64>) -> int
    decreases n,
{
    if n == 0 {
        0
    } else {
        total((n - 1) as nat, counts) + if n <= counts.len() {
            counts[n - 1] as int
        } else {
            0
        }
    }
}

/// The tiers share all counts: every count is in one of them and in no other. One more for
/// a tenant is one more for its tier.
pub proof fn law_tiers_share_all(
    profiles: Seq<TenantProfile>,
    counts: Seq<u64>,
    i: int,
    tier: TenantTier,
)
    ensures
        tier_total(profiles, counts, TenantTier::Batch) + tier_total(
            profiles,
            counts,
            TenantTier::Etl,
        ) + tier_total(profiles, counts, TenantTier::Api) == total(profiles.len(), counts),
        0 <= i < counts.len() && counts[i] < u64::MAX ==> tier_total(
            profiles,
            counts.update(i, (counts[i] + 1) as u64),
            tier,
        ) == tier_total(profiles, counts, tier) + if i < profiles.len() && profiles[i].tier == tier {
            1int
        } else {
            0
        },
    decreases profiles.len(),
{
    if profiles.len() > 0 {
        law_tiers_share_all(profiles.drop_last(), counts, i, tier);
    }
}

} // verus!
