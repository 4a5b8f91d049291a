//! What the figures of a report tell: each counter is the number of times that something
//! happened, the histogram holds the queue times, and the percentiles hold their shares.
use vstd::prelude::*;

use crate::api::{
    EnqueueRejectReason, EnqueueWithHandleResult, QuantumProvider, QueueTimeBucket,
    SchedulerStats, Task, TenantCount,
};
use crate::history;
use crate::history::sits;
use crate::invariants;
use crate::keeping;
use crate::laws;
use crate::laws::Step;
use crate::model;
use crate::model::{
    sat, BooksView, DropStrategy, EnqueueAttempt, Limits, QueueEntry, ShardView, ShutdownState,
    StateView, StatsView, TenantView, TimedAttempt, LANES,
};
use crate::time;
use crate::time::Instant;

verus! {

/// Observations of at most `ns`, as far as buckets tell: those in buckets with bounds up
/// to it.
pub open spec fn up_to(buckets: Seq<QueueTimeBucket>, ns: int) -> int
    decreases buckets.len(),
{
    if buckets.len() == 0 {
        0
    } else {
        up_to(buckets.drop_last(), ns) + if buckets.last().le_ns <= ns {
            buckets.last().count as int
        } else {
            0
        }
    }
}

/// The bounds of the buckets ascend.
pub open spec fn ascending(buckets: Seq<QueueTimeBucket>) -> bool {
    forall|i: int, j: int|
        0 <= i < j < buckets.len() ==> (#[trigger] buckets[i]).le_ns < (#[trigger] buckets[j]).le_ns
}

/// With ascending bounds, what is up to a bound is in the buckets before and at it.
proof fn lemma_up_to_is_prefix(buckets: Seq<QueueTimeBucket>, n: int, i: int, ns: int)
    requires
        ascending(buckets),
        0 <= n <= buckets.len(),
        0 <= i <= buckets.len(),
        i > 0 ==> buckets[i - 1].le_ns <= ns,
        i < buckets.len() ==> ns < buckets[i].le_ns,
    ensures
        up_to(buckets.take(n), ns) == model::observations(
            buckets.take(
                if n < i {
                    n
                } else {
                    i
                },
            ),
        ),
    decreases n,
{
    if n > 0 {
        lemma_up_to_is_prefix(buckets, n - 1, i, ns);
        assert(buckets.take(n).drop_last() =~= buckets.take(n - 1));
        if n - 1 < i - 1 {
            assert(buckets[n - 1].le_ns < buckets[i - 1].le_ns);
        }
        if n - 1 > i {
            assert(buckets[i].le_ns < buckets[n - 1].le_ns);
        }
    }
}

/// A percentile holds its share: at least so many hundredths of all observations are in
/// buckets with bounds up to it, and fewer are in those with lower bounds. It is one of
/// the bounds; with no observations it is zero.
pub proof fn law_percentiles_hold_their_share(buckets: Seq<QueueTimeBucket>, hundredths: int)
    requires
        ascending(buckets),
        1 <= hundredths <= 100,
    ensures
        ({
            let total = model::observations(buckets);
            let p = model::percentile(buckets, hundredths);
            &&& total == 0 ==> p == 0
            &&& total > 0 ==> {
                &&& 100 * up_to(buckets, p) >= hundredths * total
                &&& 100 * up_to(buckets, p - 1) < hundredths * total
                &&& exists|i: int| 0 <= i < buckets.len() && p == (#[trigger] buckets[i]).le_ns
            }
        }),
{
    let total = model::observations(buckets);
    let n = buckets.len() as int;
    assert(buckets.take(n) =~= buckets);
    laws::lemma_observations_grow(buckets, 0, n);
    if total > 0 {
        let target = model::rank_of(total, hundredths);
        model::lemma_rank_bounds(total, hundredths);
        laws::lemma_reach_exists(buckets, target, n as nat);
        let i = choose|i: int| #[trigger] model::reaches(buckets, target, i) && i < n;
        model::lemma_reached(buckets, target, i);
        let p = buckets[i].le_ns as int;
        if i + 1 < n {
            assert(buckets[i].le_ns < buckets[i + 1].le_ns);
        }
        if i > 0 {
            assert(buckets[i - 1].le_ns < buckets[i].le_ns);
            assert(model::observations(buckets.take(i - 1 + 1)) < target);
        }
        lemma_up_to_is_prefix(buckets, n, i + 1, p);
        lemma_up_to_is_prefix(buckets, n, i, p - 1);
        assert(total * hundredths == hundredths * total && hundredths * total >= 1)
            by (nonlinear_arith)
            requires
                total >= 1,
                hundredths >= 1,
        ;
        assert(buckets.take(0) =~= Seq::<QueueTimeBucket>::empty());
    }
}

/// The bounds of the histogram ascend from ten microseconds, in steps of one and of five,
/// to a second; the last one lets everything in.
pub proof fn law_histogram_bounds(stats: StatsView)
    ensures
        ({
            let buckets = model::histogram(stats);
            &&& buckets.len() == 12
            &&& ascending(buckets)
            &&& buckets[0].le_ns == 10_000
            &&& buckets[1].le_ns == 5 * buckets[0].le_ns
            &&& buckets[10].le_ns == 1_000_000_000
            &&& buckets[11].le_ns == u64::MAX
            &&& forall|i: int|
                2 <= i < 11 ==> (#[trigger] buckets[i]).le_ns == 10 * buckets[i - 2].le_ns
        }),
{
}

/// The percentiles of a report: at least 95 of 100 observations of the reported histogram
/// are in buckets with bounds up to the one reported for 95, and fewer in those with lower
/// bounds; the same with 99; and both are zero if there are no observations.
pub proof fn law_reported_percentiles<T>(s: StateView<T>, limits: Limits, stats: SchedulerStats)
    requires
        s.reports(limits, stats),
    ensures
        ({
            let shown = stats.queue_time_histogram@;
            let total = model::observations(shown);
            &&& total == 0 ==> stats.queue_time_p95_ns == 0 && stats.queue_time_p99_ns == 0
            &&& total > 0 ==> {
                &&& 100 * up_to(shown, stats.queue_time_p95_ns as int) >= 95 * total
                &&& 100 * up_to(shown, stats.queue_time_p95_ns - 1) < 95 * total
                &&& 100 * up_to(shown, stats.queue_time_p99_ns as int) >= 99 * total
                &&& 100 * up_to(shown, stats.queue_time_p99_ns - 1) < 99 * total
            }
        }),
{
    law_histogram_bounds(s.books.stats);
    law_percentiles_hold_their_share(stats.queue_time_histogram@, 95);
    law_percentiles_hold_their_share(stats.queue_time_histogram@, 99);
}

/// The tenants of a report are those in the table, each once with its count, and none has
/// a higher count than one before it; those with the same count are in the order in which
/// they are in the table.
pub proof fn law_reported_talkers_are_ranked<T>(
    s: StateView<T>,
    limits: Limits,
    stats: SchedulerStats,
)
    requires
        s.inv(),
        s.reports(limits, stats),
    ensures
        ({
            let shown = stats.top_tenants@;
            let entries = s.books.top.entries;
            &&& shown.len() == entries.len()
            &&& forall|i: int, j: int|
                0 <= i < j < shown.len() ==> (#[trigger] shown[i]).count >= (
                #[trigger] shown[j]).count && shown[i].tenant != shown[j].tenant
            &&& forall|i: int| 0 <= i < shown.len() ==> entries.contains(#[trigger] shown[i])
            &&& forall|i: int, j: int, a: int, b: int|
                0 <= i < j < shown.len() && 0 <= a < entries.len() && 0 <= b < entries.len()
                    && #[trigger] shown[i] == #[trigger] entries[a] && #[trigger] shown[j]
                    == #[trigger] entries[b] && shown[i].count == shown[j].count ==> a < b
        }),
{
    let shown = stats.top_tenants@;
    let entries = s.books.top.entries;
    let from = choose|from: Seq<int>| model::ranked_by(entries, shown, from);
    assert forall|i: int, j: int| 0 <= i < j < shown.len() implies (#[trigger] shown[i]).count >= (
    #[trigger] shown[j]).count && shown[i].tenant != shown[j].tenant by {
        assert(0 <= from[i] < entries.len() && 0 <= from[j] < entries.len());
        assert(from[i] != from[j]);
        if from[i] < from[j] {
            assert(entries[from[i]].tenant != entries[from[j]].tenant);
        } else {
            assert(entries[from[j]].tenant != entries[from[i]].tenant);
        }
    }
    assert forall|i: int| 0 <= i < shown.len() implies entries.contains(#[trigger] shown[i]) by {
        assert(0 <= from[i] < entries.len());
        assert(entries[from[i]] == shown[i]);
    }
    assert forall|i: int, j: int, a: int, b: int|
        0 <= i < j < shown.len() && 0 <= a < entries.len() && 0 <= b < entries.len()
            && #[trigger] shown[i] == #[trigger] entries[a] && #[trigger] shown[j]
            == #[trigger] entries[b] && shown[i].count == shown[j].count implies a < b by {
        assert(0 <= from[i] < entries.len() && 0 <= from[j] < entries.len());
        assert(from[i] < from[j]);
        lemma_one_place(entries, from[i], a);
        lemma_one_place(entries, from[j], b);
    }
}

/// A tenant is in one place of the table.
proof fn lemma_one_place(entries: Seq<TenantCount>, a: int, b: int)
    requires
        forall|i: int, j: int|
            0 <= i < j < entries.len() ==> (#[trigger] entries[i]).tenant != (
            #[trigger] entries[j]).tenant,
        0 <= a < entries.len(),
        0 <= b < entries.len(),
        entries[a].tenant == entries[b].tenant,
    ensures
        a == b,
{
    if a < b {
        assert(entries[a].tenant != entries[b].tenant);
    }
    if b < a {
        assert(entries[b].tenant != entries[a].tenant);
    }
}

/// The counters differ at most by tasks that have expired, which leave the queue.
pub open spec fn only_expired(a: StatsView, b: StatsView) -> bool {
    b == (StatsView { expired: b.expired, queue_len_estimate: b.queue_len_estimate, ..a })
}

proof fn lemma_strip_counts<T>(b: BooksView<T>, queue: Seq<QueueEntry<T>>, now: Instant)
    ensures
        only_expired(b.stats, model::strip(b, queue, now).0.stats),
    decreases queue.len(),
{
    if queue.len() > 0 && b.stale(queue[0], now) {
        lemma_strip_counts(b.discard(queue[0]), queue.drop_first(), now);
    }
}

proof fn lemma_purge_counts<T>(b: BooksView<T>, queue: Seq<QueueEntry<T>>, now: Instant)
    ensures
        only_expired(b.stats, model::purge(b, queue, now).0.stats),
    decreases queue.len(),
{
    if queue.len() > 0 {
        lemma_purge_counts(b, queue.drop_last(), now);
    }
}

proof fn lemma_purged_counts<T>(tenant: TenantView<T>, b: BooksView<T>, n: nat, now: Instant)
    ensures
        only_expired(b.stats, tenant.purged(b, n, now).0.stats),
    decreases n,
{
    if n > 0 {
        lemma_purged_counts(tenant, b, (n - 1) as nat, now);
        let (b1, tenant1) = tenant.purged(b, (n - 1) as nat, now);
        lemma_purge_counts(b1, tenant1.lanes[n - 1].queue, now);
    }
}

/// Upkeep counts what has expired, and nothing else.
proof fn lemma_prepared_counts<T>(
    s: StateView<T>,
    limits: Limits,
    t: u64,
    quantum: int,
    now: Instant,
)
    ensures
        only_expired(s.books.stats, s.prepared(limits, t, quantum, now).books.stats),
{
    let before = s.shards[s.shard_index(t)].tenant_or_fresh(t, quantum);
    let counted = TenantView { since_purge: before.since_purge + 1, ..before };
    lemma_purged_counts(before, s.books, LANES as nat, now);
    lemma_purged_counts(counted, s.books, LANES as nat, now);
}

/// What an attempt to dequeue counts: what has expired, and the task that it hands out,
/// with its queue time.
pub open spec fn served<T>(
    a: StatsView,
    b: StatsView,
    found: Option<(u64, QueueEntry<T>)>,
    now: Instant,
) -> bool {
    match found {
        None => only_expired(a, b),
        Some((_, entry)) => only_expired(
            StatsView { dequeued: sat(a.dequeued + 1), ..a }.timed(
                time::elapsed_nanos(entry.task.enqueue_ts, now),
            ),
            b,
        ),
    }
}

proof fn lemma_turn_counts<T>(shard: ShardView<T>, b: BooksView<T>, l: int, now: Instant)
    ensures
        served(b.stats, shard.turn(b, l, now).1.stats, shard.turn(b, l, now).2, now),
{
    let t = shard.rings[l][0];
    lemma_strip_counts(b, shard.tenants[t].lanes[l].queue, now);
}

proof fn lemma_pass_counts<T>(
    shard: ShardView<T>,
    b: BooksView<T>,
    l: int,
    turns: nat,
    now: Instant,
)
    ensures
        served(b.stats, shard.pass(b, l, turns, now).1.stats, shard.pass(b, l, turns, now).2, now),
    decreases turns,
{
    if turns > 0 && shard.rings[l].len() > 0 {
        lemma_turn_counts(shard, b, l, now);
        let (shard1, b1, found) = shard.turn(b, l, now);
        if found is None {
            lemma_pass_counts(shard1, b1, l, (turns - 1) as nat, now);
        }
    }
}

proof fn lemma_dequeue_from_counts<T>(shard: ShardView<T>, b: BooksView<T>, l: int, now: Instant)
    ensures
        ({
            let (_, b1, found) = shard.dequeue_from(b, l, now);
            served(b.stats, b1.stats, found, now)
        }),
    decreases LANES - l,
{
    if 0 <= l < LANES {
        lemma_pass_counts(shard, b, l, shard.rings[l].len(), now);
        let (shard1, b1, found) = shard.pass(b, l, shard.rings[l].len(), now);
        if found is None {
            lemma_dequeue_from_counts(shard1, b1, l + 1, now);
        }
    }
}

proof fn lemma_sweep_counts<T>(s: StateView<T>, turns: nat, now: Instant)
    ensures
        served(s.books.stats, s.sweep(turns, now).0.books.stats, s.sweep(turns, now).1, now),
    decreases turns,
{
    if turns > 0 && s.ready.len() > 0 {
        lemma_dequeue_from_counts(s.shards[s.ready[0] as int], s.books, 0, now);
        let (s1, found) = s.shard_turn(now);
        if found is None {
            lemma_sweep_counts(s1, (turns - 1) as nat, now);
        }
    }
}

/// A further observation in one bucket.
pub proof fn lemma_one_more(
    buckets: Seq<QueueTimeBucket>,
    after: Seq<QueueTimeBucket>,
    k: int,
    n: int,
    ns: int,
)
    requires
        0 <= k < buckets.len(),
        0 <= n <= buckets.len(),
        after.len() == buckets.len(),
        forall|i: int|
            0 <= i < buckets.len() ==> (#[trigger] after[i]).le_ns == buckets[i].le_ns
                && after[i].count == buckets[i].count + if i == k {
                1int
            } else {
                0
            },
    ensures
        up_to(after.take(n), ns) == up_to(buckets.take(n), ns) + if k < n && buckets[k].le_ns
            <= ns {
            1int
        } else {
            0
        },
    decreases n,
{
    if n > 0 {
        lemma_one_more(buckets, after, k, n - 1, ns);
        assert(buckets.take(n).drop_last() =~= buckets.take(n - 1));
        assert(after.take(n).drop_last() =~= after.take(n - 1));
        assert(after[n - 1].le_ns == buckets[n - 1].le_ns);
    }
}

/// A task that is handed out is observed once, with the time that it has waited: for each
/// bound of the histogram, the observations up to it are one more if the task has waited
/// no longer, and as many as before if it has; and the sum grows by the time waited.
/// Nothing handed out, nothing observed.
pub proof fn law_queue_times_are_observed<T>(s: StateView<T>, now: Instant, i: int)
    requires
        s.inv(),
        s.books.counted(),
        forall|k: int|
            0 <= k < s.books.stats.queue_time_buckets.len() ==> (
            #[trigger] s.books.stats.queue_time_buckets[k]) < u64::MAX,
        0 <= i < model::histogram(s.books.stats).len(),
    ensures
        ({
            let (after, found) = s.dequeue(now);
            let earlier = model::histogram(s.books.stats);
            let later = model::histogram(after.books.stats);
            let bound = earlier[i].le_ns as int;
            &&& later[i].le_ns == bound
            &&& match found {
                Some((_, entry)) => {
                    let waited = time::elapsed_nanos(entry.task.enqueue_ts, now);
                    &&& up_to(later, bound) == up_to(earlier, bound) + if waited <= bound {
                        1int
                    } else {
                        0
                    }
                    &&& after.books.stats.queue_time_sum_ns == sat(
                        s.books.stats.queue_time_sum_ns + waited,
                    )
                },
                None => {
                    &&& up_to(later, bound) == up_to(earlier, bound)
                    &&& after.books.stats.queue_time_sum_ns == s.books.stats.queue_time_sum_ns
                },
            }
        }),
{
    let (after, found) = s.dequeue(now);
    lemma_sweep_counts(s, s.ready.len(), now);
    let earlier = model::histogram(s.books.stats);
    let later = model::histogram(after.books.stats);
    let n = earlier.len() as int;
    assert(earlier.take(n) =~= earlier);
    assert(later.take(n) =~= later);
    if let Some((_, entry)) = found {
        let waited = time::elapsed_nanos(entry.task.enqueue_ts, now);
        let k = model::bucket_of(waited);
        crate::accounts::lemma_bucket_exists(waited);
        let buckets = s.books.stats.queue_time_buckets;
        assert(after.books.stats.queue_time_buckets == buckets.update(k, sat(buckets[k] + 1)));
        assert forall|j: int| 0 <= j < n implies (#[trigger] later[j]).le_ns == earlier[j].le_ns
            && later[j].count == earlier[j].count + if j == k {
            1int
        } else {
            0
        } by {
            let _ = buckets[j];
        }
        let bound = earlier[i].le_ns as int;
        lemma_one_more(earlier, later, k, n, bound);
        let bounds = model::bucket_bounds();
        assert(waited <= bounds[k]);
        if k <= i {
            laws::lemma_bounds_ascend(k, i);
        } else {
            assert(waited > bounds[i]);
            laws::lemma_bounds_ascend(i, k);
        }
    } else {
        assert(later =~= earlier);
    }
}

/// Things that happen and are counted.
pub enum Event {
    /// A task is accepted.
    Accepted,
    /// A task is handed out.
    HandedOut,
    /// A task is turned away for the tenant's limit.
    TenantFull,
    /// A task is turned away for the global limit.
    GlobalFull,
    /// A task is turned away because time ran out.
    TimedOut,
    /// A live task is given up for another.
    GivenUp,
}

/// The operation's answer, if it is an enqueue that gives one.
pub open spec fn answer_of<T>(s: StateView<T>, limits: Limits, step: Step<T>) -> Option<
    EnqueueWithHandleResult,
> {
    match step {
        Step::EnqueueReject { tenant, task, quantum, now } => Some(
            s.enqueue_reject(limits, tenant, task, quantum, now).1,
        ),
        Step::EnqueueDrop { tenant, task, strategy, quantum, now } => Some(
            s.enqueue_drop(limits, tenant, task, strategy, quantum, now).1,
        ),
        Step::Attempt { tenant, task, quantum, now } => match s.try_enqueue(
            limits,
            tenant,
            task,
            quantum,
            now,
        ).1 {
            EnqueueAttempt::Enqueued(handle) => Some(EnqueueWithHandleResult::Enqueued(handle)),
            _ => None,
        },
        Step::TimedOut => Some(EnqueueWithHandleResult::Rejected(EnqueueRejectReason::Timeout)),
        _ => None,
    }
}

/// The operation costs a live task its place.
pub open spec fn displaces<T>(s: StateView<T>, limits: Limits, step: Step<T>) -> bool {
    match step {
        Step::EnqueueDrop { tenant, task, strategy, quantum, now } => exists|
            u: u64,
            l: int,
            e: QueueEntry<T>,
        | #[trigger]
            keeping::lives(s, u, l, e, now) && !s.enqueue_drop(
                limits,
                tenant,
                task,
                strategy,
                quantum,
                now,
            ).0.books.pending.contains(e.id),
        _ => false,
    }
}

/// What the operation answers shows that this has happened.
pub open spec fn happens<T>(s: StateView<T>, limits: Limits, step: Step<T>, event: Event) -> bool {
    match event {
        Event::Accepted => answer_of(s, limits, step) matches Some(r) && r is Enqueued,
        Event::HandedOut => step matches Step::Dequeue { now } && s.dequeue(now).1 is Some,
        Event::TenantFull => answer_of(s, limits, step) == Some(
            EnqueueWithHandleResult::Rejected(EnqueueRejectReason::TenantFull),
        ),
        Event::GlobalFull => answer_of(s, limits, step) == Some(
            EnqueueWithHandleResult::Rejected(EnqueueRejectReason::GlobalFull),
        ),
        Event::TimedOut => answer_of(s, limits, step) == Some(
            EnqueueWithHandleResult::Rejected(EnqueueRejectReason::Timeout),
        ),
        Event::GivenUp => displaces(s, limits, step),
    }
}

/// One if it has happened.
pub open spec fn one<T>(s: StateView<T>, limits: Limits, step: Step<T>, event: Event) -> int {
    if happens(s, limits, step, event) {
        1
    } else {
        0
    }
}

/// How often it has happened.
pub open spec fn times<T>(
    start: StateView<T>,
    limits: Limits,
    steps: Seq<Step<T>>,
    event: Event,
) -> int
    decreases steps.len(),
{
    if steps.len() == 0 {
        0
    } else {
        times(start, limits, steps.drop_last(), event) + one(
            laws::run(start, limits, steps.drop_last()),
            limits,
            steps.last(),
            event,
        )
    }
}

/// Nanoseconds that the tasks handed out have waited, all together.
pub open spec fn waited<T>(start: StateView<T>, limits: Limits, steps: Seq<Step<T>>) -> int
    decreases steps.len(),
{
    if steps.len() == 0 {
        0
    } else {
        let earlier = waited(start, limits, steps.drop_last());
        match steps.last() {
            Step::Dequeue { now } => match laws::run(start, limits, steps.drop_last()).dequeue(
                now,
            ).1 {
                Some((_, entry)) => earlier + time::elapsed_nanos(entry.task.enqueue_ts, now),
                None => earlier,
            },
            _ => earlier,
        }
    }
}

/// How many of the tasks handed out have waited so many nanoseconds at most.
pub open spec fn waited_at_most<T>(
    start: StateView<T>,
    limits: Limits,
    steps: Seq<Step<T>>,
    ns: int,
) -> int
    decreases steps.len(),
{
    if steps.len() == 0 {
        0
    } else {
        let earlier = waited_at_most(start, limits, steps.drop_last(), ns);
        match steps.last() {
            Step::Dequeue { now } => match laws::run(start, limits, steps.drop_last()).dequeue(
                now,
            ).1 {
                Some((_, entry)) if time::elapsed_nanos(entry.task.enqueue_ts, now) <= ns => earlier
                    + 1,
                _ => earlier,
            },
            _ => earlier,
        }
    }
}

/// When a live task is displaced.
proof fn lemma_displaced<T>(
    s: StateView<T>,
    limits: Limits,
    t: u64,
    task: Task<T>,
    strategy: DropStrategy,
    quantum: int,
    now: Instant,
)
    requires
        s.inv(),
        1 <= quantum <= i64::MAX,
    ensures
        ({
            let state = s.prepared(limits, t, quantum, now);
            let tenant = state.tenant(t);
            displaces(s, limits, Step::EnqueueDrop { tenant: t, task, strategy, quantum, now })
                <==> s.shutdown == ShutdownState::Open && (tenant.full(limits)
                || state.books.global_full(limits)) && tenant.victim_lane(task.priority.rank())
                is Some && state.books.last_id < u64::MAX
        }),
{
    history::lemma_prepared_lanes(s, limits, t, quantum, now);
    invariants::lemma_prepared(s, limits, t, quantum, now);
    let state = s.prepared(limits, t, quantum, now);
    let tenant = state.tenant(t);
    let rank = task.priority.rank();
    let step = Step::EnqueueDrop { tenant: t, task, strategy, quantum, now };
    let after = s.enqueue_drop(limits, t, task, strategy, quantum, now).0;
    invariants::lemma_enqueue_drop(s, limits, t, task, strategy, quantum, now);
    if displaces(s, limits, step) {
        let (u, l, e) = choose|u: u64, l: int, e: QueueEntry<T>| #[trigger]
            keeping::lives(s, u, l, e, now) && !after.books.pending.contains(e.id);
        keeping::lemma_sitting_is_known(s, u, l, e);
        if s.shutdown == ShutdownState::Open {
            keeping::lemma_prepared_keeps(s, limits, t, quantum, now, u, l, e);
            keeping::lemma_sitting_is_known(state, u, l, e);
        }
    }
    if s.shutdown == ShutdownState::Open && (tenant.full(limits) || state.books.global_full(
        limits,
    )) && tenant.victim_lane(rank) is Some && state.books.last_id < u64::MAX {
        let v = tenant.victim_lane(rank)->0;
        let p = tenant.victim_position(v, strategy);
        let lost = tenant.lanes[v].queue[p];
        assert(tenant.lanes[v].queue.contains(lost));
        assert(sits(state, t, v, lost));
        history::lemma_prepared_sits(s, limits, t, quantum, now, t, v, lost);
        keeping::lemma_sitting_is_known(state, t, v, lost);
        keeping::lemma_sitting_is_known(s, t, v, lost);
        assert(!state.books.stale(tenant.lanes[v].queue[p], now));
        assert(keeping::lives(s, t, v, lost, now));
        assert(!after.books.pending.contains(lost.id));
    }
}

/// The counter was raised by so much, or left as it was.
spec fn raised(before: int, after: int, by: int) -> bool {
    after == if by == 0 {
        before
    } else {
        sat(before + by)
    }
}

/// What an operation counts.
proof fn lemma_step_counts<T>(s: StateView<T>, limits: Limits, step: Step<T>)
    requires
        s.inv(),
        laws::valid(step),
    ensures
        ({
            let a = s.books.stats;
            let b = laws::apply(s, limits, step).books.stats;
            &&& raised(a.enqueued, b.enqueued, one(s, limits, step, Event::Accepted))
            &&& raised(a.dequeued, b.dequeued, one(s, limits, step, Event::HandedOut))
            &&& raised(
                a.queue_time_samples,
                b.queue_time_samples,
                one(s, limits, step, Event::HandedOut),
            )
            &&& raised(a.rejected_tenant, b.rejected_tenant, one(s, limits, step, Event::TenantFull))
            &&& raised(a.rejected_global, b.rejected_global, one(s, limits, step, Event::GlobalFull))
            &&& raised(a.timeout_rejected, b.timeout_rejected, one(s, limits, step, Event::TimedOut))
            &&& raised(a.dropped_policy, b.dropped_policy, one(s, limits, step, Event::GivenUp))
            &&& match step {
                Step::Dequeue { now } => match s.dequeue(now).1 {
                    Some((_, entry)) => b.queue_time_sum_ns == sat(
                        a.queue_time_sum_ns + time::elapsed_nanos(entry.task.enqueue_ts, now),
                    ),
                    None => b.queue_time_sum_ns == a.queue_time_sum_ns,
                },
                _ => b.queue_time_sum_ns == a.queue_time_sum_ns && b.queue_time_buckets
                    == a.queue_time_buckets,
            }
        }),
{
    reveal(laws::apply);
    match step {
        Step::Dequeue { now } => {
            lemma_sweep_counts(s, s.ready.len(), now);
        },
        Step::Attempt { tenant, task, quantum, now } => {
            lemma_prepared_counts(s, limits, tenant, quantum, now);
        },
        Step::EnqueueReject { tenant, task, quantum, now } => {
            lemma_prepared_counts(s, limits, tenant, quantum, now);
        },
        Step::EnqueueDrop { tenant, task, strategy, quantum, now } => {
            lemma_prepared_counts(s, limits, tenant, quantum, now);
            lemma_displaced(s, limits, tenant, task, strategy, quantum, now);
        },
        _ => {},
    }
}

/// What the counters of a report are: how often it has happened since the scheduler was
/// new that a task was accepted, handed out, turned away for the one reason or the other,
/// or given up; and how long the tasks handed out have waited; as far as a counter can
/// count. While none is at its end, drops are the refusals and the tasks given up, and what
/// was accepted is pending, was handed out, has expired, was given up or was cancelled; and
/// for each bound of the histogram, the observations up to it are the tasks handed out that
/// have waited no longer.
pub open spec fn tells<T>(
    start: StateView<T>,
    limits: Limits,
    steps: Seq<Step<T>>,
    stats: SchedulerStats,
) -> bool {
    &&& stats.enqueued == sat(times(start, limits, steps, Event::Accepted))
    &&& stats.dequeued == sat(times(start, limits, steps, Event::HandedOut))
    &&& stats.queue_time_samples == sat(times(start, limits, steps, Event::HandedOut))
    &&& stats.rejected_tenant == sat(times(start, limits, steps, Event::TenantFull))
    &&& stats.rejected_global == sat(times(start, limits, steps, Event::GlobalFull))
    &&& stats.timeout_rejected == sat(times(start, limits, steps, Event::TimedOut))
    &&& stats.dropped_policy == sat(times(start, limits, steps, Event::GivenUp))
    &&& stats.queue_time_sum_ns == sat(waited(start, limits, steps))
    &&& laws::below_end(stats) ==> forall|i: int|
        #![trigger stats.queue_time_histogram@[i]]
        0 <= i < stats.queue_time_histogram@.len() ==> up_to(
            stats.queue_time_histogram@,
            stats.queue_time_histogram@[i].le_ns as int,
        ) == waited_at_most(start, limits, steps, stats.queue_time_histogram@[i].le_ns as int)
    &&& laws::below_end(stats) ==> {
        &&& stats.dropped == stats.rejected_tenant + stats.rejected_global
            + stats.timeout_rejected + stats.dropped_policy
        &&& stats.enqueued == stats.queue_len_estimate + stats.dequeued + stats.expired
            + stats.dropped_policy + laws::cancellations(start, limits, steps)
    }
    &&& stats.max_global == limits.max_global
    &&& stats.queue_len_estimate == laws::run(start, limits, steps).books.pending.len()
}

/// The counters over a run.
proof fn lemma_run_counts<T>(
    shards: nat,
    capacity: nat,
    quanta: Map<u64, u64>,
    provider: Option<QuantumProvider>,
    limits: Limits,
    steps: Seq<Step<T>>,
)
    requires
        1 <= shards <= usize::MAX,
        laws::all_valid(steps),
    ensures
        ({
            let start = StateView::<T>::initial(shards, capacity, quanta, provider);
            let b = laws::run(start, limits, steps).books.stats;
            &&& b.enqueued == sat(times(start, limits, steps, Event::Accepted))
            &&& b.dequeued == sat(times(start, limits, steps, Event::HandedOut))
            &&& b.queue_time_samples == sat(times(start, limits, steps, Event::HandedOut))
            &&& b.rejected_tenant == sat(times(start, limits, steps, Event::TenantFull))
            &&& b.rejected_global == sat(times(start, limits, steps, Event::GlobalFull))
            &&& b.timeout_rejected == sat(times(start, limits, steps, Event::TimedOut))
            &&& b.dropped_policy == sat(times(start, limits, steps, Event::GivenUp))
            &&& b.queue_time_sum_ns == sat(waited(start, limits, steps))
        }),
    decreases steps.len(),
{
    let start = StateView::<T>::initial(shards, capacity, quanta, provider);
    if steps.len() > 0 {
        let before = steps.drop_last();
        assert forall|k: int| 0 <= k < before.len() implies laws::valid(#[trigger] before[k]) by {
            assert(laws::valid(steps[k]));
        }
        assert(laws::valid(steps[steps.len() - 1]));
        lemma_run_counts(shards, capacity, quanta, provider, limits, before);
        laws::law_every_state_is_in_order(shards, capacity, quanta, provider, limits, before);
        lemma_step_counts(laws::run(start, limits, before), limits, steps.last());
    }
}

/// Nothing was observed yet.
proof fn lemma_none_observed(buckets: Seq<QueueTimeBucket>, ns: int)
    requires
        forall|i: int| 0 <= i < buckets.len() ==> (#[trigger] buckets[i]).count == 0,
    ensures
        up_to(buckets, ns) == 0,
    decreases buckets.len(),
{
    if buckets.len() > 0 {
        let front = buckets.drop_last();
        assert forall|i: int| 0 <= i < front.len() implies (#[trigger] front[i]).count == 0 by {
            assert(buckets[i].count == 0);
        }
        lemma_none_observed(front, ns);
        assert(buckets[buckets.len() - 1].count == 0);
    }
}

/// The histogram over a run.
proof fn lemma_run_observes<T>(
    shards: nat,
    capacity: nat,
    quanta: Map<u64, u64>,
    provider: Option<QuantumProvider>,
    limits: Limits,
    steps: Seq<Step<T>>,
    i: int,
)
    requires
        1 <= shards <= usize::MAX,
        laws::all_valid(steps),
        0 <= i < model::bucket_bounds().len(),
        ({
            let start = StateView::<T>::initial(shards, capacity, quanta, provider);
            let buckets = laws::run(start, limits, steps).books.stats.queue_time_buckets;
            forall|k: int| 0 <= k < buckets.len() ==> (#[trigger] buckets[k]) < u64::MAX
        }),
    ensures
        ({
            let start = StateView::<T>::initial(shards, capacity, quanta, provider);
            let shown = model::histogram(laws::run(start, limits, steps).books.stats);
            up_to(shown, shown[i].le_ns as int) == waited_at_most(
                start,
                limits,
                steps,
                shown[i].le_ns as int,
            )
        }),
    decreases steps.len(),
{
    let start = StateView::<T>::initial(shards, capacity, quanta, provider);
    if steps.len() == 0 {
        let shown = model::histogram(start.books.stats);
        lemma_none_observed(shown, shown[i].le_ns as int);
    } else {
        let before = steps.drop_last();
        assert forall|k: int| 0 <= k < before.len() implies laws::valid(#[trigger] before[k]) by {
            assert(laws::valid(steps[k]));
        }
        assert(laws::valid(steps[steps.len() - 1]));
        laws::law_every_state_is_in_order(shards, capacity, quanta, provider, limits, before);
        let middle = laws::run(start, limits, before);
        let end = laws::run(start, limits, steps);
        lemma_step_counts(middle, limits, steps.last());
        let earlier = middle.books.stats.queue_time_buckets;
        let later = end.books.stats.queue_time_buckets;
        if let Step::Dequeue { now } = steps.last() {
            assert(end == middle.dequeue(now).0) by {
                reveal(laws::apply);
            }
            lemma_sweep_counts(middle, middle.ready.len(), now);
            assert forall|k: int| 0 <= k < earlier.len() implies (#[trigger] earlier[k])
                < u64::MAX by {
                if let Some((_, entry)) = middle.dequeue(now).1 {
                    crate::accounts::lemma_bucket_exists(
                        time::elapsed_nanos(entry.task.enqueue_ts, now),
                    );
                }
                assert(later[k] < u64::MAX);
            }
            law_queue_times_are_observed(middle, now, i);
        }
        lemma_run_observes(shards, capacity, quanta, provider, limits, before, i);
    }
}

/// A report tells how often things have happened.
pub proof fn law_reports_count_what_happened<T>(
    shards: nat,
    capacity: nat,
    quanta: Map<u64, u64>,
    provider: Option<QuantumProvider>,
    limits: Limits,
    steps: Seq<Step<T>>,
    stats: SchedulerStats,
)
    requires
        1 <= shards <= usize::MAX,
        laws::all_valid(steps),
        laws::run(
            StateView::<T>::initial(shards, capacity, quanta, provider),
            limits,
            steps,
        ).reports(limits, stats),
    ensures
        tells(
            StateView::<T>::initial(shards, capacity, quanta, provider),
            limits,
            steps,
            stats,
        ),
{
    lemma_run_counts(shards, capacity, quanta, provider, limits, steps);
    laws::law_every_state_is_in_order(shards, capacity, quanta, provider, limits, steps);
    if laws::below_end(stats) {
        let start = StateView::<T>::initial(shards, capacity, quanta, provider);
        let counters = laws::run(start, limits, steps).books.stats;
        let shown = stats.queue_time_histogram@;
        assert forall|i: int| 0 <= i < counters.queue_time_buckets.len() implies (
        #[trigger] counters.queue_time_buckets[i]) < u64::MAX by {
            assert(shown[i].count < u64::MAX);
        }
        laws::law_accounts_of_every_state(shards, capacity, quanta, provider, limits, steps);
        assert forall|i: int|
            #![trigger stats.queue_time_histogram@[i]]
            0 <= i < stats.queue_time_histogram@.len() implies up_to(
            shown,
            shown[i].le_ns as int,
        ) == waited_at_most(start, limits, steps, shown[i].le_ns as int) by {
            lemma_run_observes(shards, capacity, quanta, provider, limits, steps, i);
        }
    }
}

/// An attempt that waits for room counts a refusal for want of time if it answers with
/// one, and only then; an acceptance likewise; and no other refusal.
pub proof fn law_waiting_is_counted_once<T>(
    s: StateView<T>,
    limits: Limits,
    t: u64,
    task: Task<T>,
    quantum: int,
    now: Instant,
    deadline: Instant,
)
    requires
        s.inv(),
        s.books.counted(),
        1 <= quantum <= i64::MAX,
    ensures
        ({
            let (after, r) = s.timed_enqueue(limits, t, task, quantum, now, deadline);
            let a = s.books.stats;
            let b = after.books.stats;
            &&& b.timeout_rejected == if r == TimedAttempt::<T>::Done(
                EnqueueWithHandleResult::Rejected(EnqueueRejectReason::Timeout),
            ) {
                sat(a.timeout_rejected + 1)
            } else {
                a.timeout_rejected
            }
            &&& b.enqueued == if r matches TimedAttempt::Done(done) && done is Enqueued {
                sat(a.enqueued + 1)
            } else {
                a.enqueued
            }
            &&& b.rejected_global == a.rejected_global
            &&& b.rejected_tenant == a.rejected_tenant
            &&& b.dropped_policy == a.dropped_policy
            &&& b.dequeued == a.dequeued
        }),
{
    lemma_prepared_counts(s, limits, t, quantum, now);
}

} // verus!
