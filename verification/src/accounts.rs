//! How the counters add up.
use vstd::prelude::*;

use crate::api::{EnqueueRejectReason, Task};
use crate::invariants;
use crate::model;
use crate::model::{
    BooksView, DropStrategy, EnqueueAttempt, Limits, QueueEntry, ShardView, StateView, StatsView,
    TenantView, LANES,
};
use crate::time::Instant;

verus! {

/// No counter has reached the largest number it can hold.
pub open spec fn exact(stats: StatsView) -> bool {
    &&& stats.enqueued < u64::MAX
    &&& stats.dequeued < u64::MAX
    &&& stats.expired < u64::MAX
    &&& stats.dropped < u64::MAX
    &&& stats.rejected_global < u64::MAX
    &&& stats.rejected_tenant < u64::MAX
    &&& stats.timeout_rejected < u64::MAX
    &&& stats.dropped_policy < u64::MAX
    &&& stats.queue_time_samples < u64::MAX
    &&& forall|i: int|
        0 <= i < stats.queue_time_buckets.len() ==> (#[trigger] stats.queue_time_buckets[i])
            < u64::MAX
}

/// Sum of numbers.
pub open spec fn sum(xs: Seq<int>) -> int
    decreases xs.len(),
{
    if xs.len() == 0 {
        0
    } else {
        sum(xs.drop_last()) + xs.last()
    }
}

/// Accepted tasks that are neither pending nor accounted for as handed out, expired
/// or given up for others: those that were cancelled.
pub open spec fn unaccounted(stats: StatsView) -> int {
    stats.enqueued - stats.dequeued - stats.expired - stats.dropped_policy
        - stats.queue_len_estimate
}

/// Drops that are not accounted for by their reason.
pub open spec fn unexplained(stats: StatsView) -> int {
    stats.dropped - stats.rejected_global - stats.rejected_tenant - stats.timeout_rejected
        - stats.dropped_policy
}

/// Tasks handed out without a sample of their queue time.
pub open spec fn unsampled(stats: StatsView) -> int {
    stats.dequeued - stats.queue_time_samples
}

/// Samples that are in no bucket.
pub open spec fn unsorted(stats: StatsView) -> int {
    stats.queue_time_samples - sum(stats.queue_time_buckets)
}

/// No counter has gone down, and if none is at its end, the accounts have changed by
/// `cancelled` tasks that were cancelled.
pub open spec fn balanced(before: StatsView, after: StatsView, cancelled: int) -> bool {
    &&& before.enqueued <= after.enqueued
    &&& before.dequeued <= after.dequeued
    &&& before.expired <= after.expired
    &&& before.dropped <= after.dropped
    &&& before.rejected_global <= after.rejected_global
    &&& before.rejected_tenant <= after.rejected_tenant
    &&& before.timeout_rejected <= after.timeout_rejected
    &&& before.dropped_policy <= after.dropped_policy
    &&& before.queue_time_samples <= after.queue_time_samples
    &&& before.queue_time_buckets.len() == after.queue_time_buckets.len()
    &&& forall|i: int|
        0 <= i < before.queue_time_buckets.len() ==> before.queue_time_buckets[i] <= (
        #[trigger] after.queue_time_buckets[i])
    &&& exact(after) ==> {
        &&& unaccounted(after) == unaccounted(before) + cancelled
        &&& unexplained(after) == unexplained(before)
        &&& unsampled(after) == unsampled(before)
        &&& unsorted(after) == unsorted(before)
    }
}

/// Accounts balance over two steps if they do over each.
pub proof fn lemma_balanced_twice(a: StatsView, b: StatsView, c: StatsView, n: int, m: int)
    requires
        balanced(a, b, n),
        balanced(b, c, m),
    ensures
        balanced(a, c, n + m),
{
    assert forall|i: int| 0 <= i < a.queue_time_buckets.len() implies a.queue_time_buckets[i] <= (
    #[trigger] c.queue_time_buckets[i]) by {
        let _ = b.queue_time_buckets[i];
    }
    if exact(c) {
        assert forall|i: int| 0 <= i < b.queue_time_buckets.len() implies (
        #[trigger] b.queue_time_buckets[i]) < u64::MAX by {
            let _ = c.queue_time_buckets[i];
        }
        assert(exact(b));
    }
}

/// One more in one place is one more in all.
proof fn lemma_sum_update(xs: Seq<int>, i: int, x: int)
    requires
        0 <= i < xs.len(),
    ensures
        sum(xs.update(i, x)) == sum(xs) - xs[i] + x,
    decreases xs.len(),
{
    let ys = xs.update(i, x);
    if i < xs.len() - 1 {
        lemma_sum_update(xs.drop_last(), i, x);
        assert(ys.drop_last() =~= xs.drop_last().update(i, x));
    } else {
        assert(ys.drop_last() =~= xs.drop_last());
    }
}

/// Every queue time has its bucket.
pub proof fn lemma_bucket_exists(ns: int)
    requires
        0 <= ns <= u64::MAX,
    ensures
        0 <= model::bucket_of(ns) < model::bucket_bounds().len(),
{
    let bounds = model::bucket_bounds();
    assert(ns <= bounds[11]);
    lemma_first_bound(ns, 11);
}

/// If a queue time is within some bound, there is a first one.
proof fn lemma_first_bound(ns: int, k: int)
    requires
        0 <= k < model::bucket_bounds().len(),
        ns <= model::bucket_bounds()[k],
    ensures
        exists|i: int|
            0 <= i < model::bucket_bounds().len() && ns <= #[trigger] model::bucket_bounds()[i]
                && forall|j: int| 0 <= j < i ==> ns > #[trigger] model::bucket_bounds()[j],
    decreases k,
{
    let bounds = model::bucket_bounds();
    if exists|j: int| 0 <= j < k && ns <= #[trigger] bounds[j] {
        let j = choose|j: int| 0 <= j < k && ns <= #[trigger] bounds[j];
        lemma_first_bound(ns, j);
    } else {
        assert(ns <= bounds[k]);
    }
}

/// The accounts balance over the removal of a stale entry.
pub proof fn lemma_discard_balances<T>(b: BooksView<T>, entry: QueueEntry<T>)
    requires
        b.inv(),
        b.home.contains_key(entry.id),
        b.counted(),
    ensures
        balanced(b.stats, b.discard(entry).stats, 0),
        b.discard(entry).counted(),
{
    if !b.cancelled.contains(entry.id) {
        assert(b.pending.union(b.cancelled).contains(entry.id));
        assert(b.pending.len() > 0);
    }
}

/// The accounts balance over a delivery.
pub proof fn lemma_deliver_balances<T>(b: BooksView<T>, t: u64, entry: QueueEntry<T>, now: Instant)
    requires
        b.inv(),
        b.pending.contains(entry.id),
        b.counted(),
    ensures
        balanced(b.stats, b.deliver(t, entry, now).stats, 0),
        b.deliver(t, entry, now).counted(),
{
    let ns = crate::time::elapsed_nanos(entry.task.enqueue_ts, now);
    lemma_bucket_exists(ns);
    let k = model::bucket_of(ns);
    let buckets = b.stats.queue_time_buckets;
    let after = b.deliver(t, entry, now).stats;
    lemma_sum_update(buckets, k, model::sat(buckets[k] + 1));
    assert(b.pending.len() > 0);
    assert(after.queue_time_buckets == buckets.update(k, model::sat(buckets[k] + 1)));
    assert forall|i: int| 0 <= i < buckets.len() implies buckets[i] <= (
    #[trigger] after.queue_time_buckets[i]) by {
        let _ = buckets[i];
    }
    if exact(after) {
        assert(after.queue_time_buckets[k] < u64::MAX);
    }
}

/// The accounts balance over stripping.
pub proof fn lemma_strip_balances<T>(
    b: BooksView<T>,
    queue: Seq<QueueEntry<T>>,
    t: u64,
    l: int,
    now: Instant,
)
    requires
        b.inv(),
        b.counted(),
        invariants::lane_ok(queue, t, l, b.home),
    ensures
        balanced(b.stats, model::strip(b, queue, now).0.stats, 0),
        model::strip(b, queue, now).0.counted(),
    decreases queue.len(),
{
    if queue.len() > 0 && b.stale(queue[0], now) {
        let b1 = b.discard(queue[0]);
        invariants::lemma_lane_remove(queue, 0, t, l, b.home);
        invariants::lemma_discard(b, queue[0]);
        lemma_discard_balances(b, queue[0]);
        assert(queue.remove(0) =~= queue.drop_first());
        lemma_strip_balances(b1, queue.drop_first(), t, l, now);
        lemma_balanced_twice(
            b.stats,
            b1.stats,
            model::strip(b, queue, now).0.stats,
            0,
            0,
        );
    } else {
        lemma_balanced_same(b.stats);
    }
}

/// Nothing happened.
proof fn lemma_balanced_same(stats: StatsView)
    ensures
        balanced(stats, stats, 0),
{
}

/// The accounts balance over a turn.
proof fn lemma_turn_balances<T>(
    shard: ShardView<T>,
    b: BooksView<T>,
    l: int,
    now: Instant,
    i: int,
    n: nat,
)
    requires
        shard.inv(b.home, i, n),
        b.inv(),
        b.counted(),
        0 <= l < LANES,
        shard.rings[l].len() > 0,
    ensures
        balanced(b.stats, shard.turn(b, l, now).1.stats, 0),
        shard.turn(b, l, now).1.counted(),
{
    let t = shard.rings[l][0];
    assert(shard.tenants.contains_key(t));
    invariants::lemma_lane_of_shard(shard, b.home, i, n, t, l);
    let lane = shard.tenants[t].lanes[l];
    lemma_strip_balances(b, lane.queue, t, l, now);
    invariants::lemma_strip(b, lane.queue, t, l, now);
    let (b1, queue) = model::strip(b, lane.queue, now);
    let (after, b2, found) = shard.turn(b, l, now);
    if found is Some {
        lemma_deliver_balances(b1, t, queue[0], now);
        lemma_balanced_twice(b.stats, b1.stats, b2.stats, 0, 0);
    }
}

/// The accounts balance over a pass.
proof fn lemma_pass_balances<T>(
    shard: ShardView<T>,
    b: BooksView<T>,
    l: int,
    turns: nat,
    now: Instant,
    i: int,
    n: nat,
)
    requires
        shard.inv(b.home, i, n),
        b.inv(),
        b.counted(),
        0 <= l < LANES,
    ensures
        balanced(b.stats, shard.pass(b, l, turns, now).1.stats, 0),
        shard.pass(b, l, turns, now).1.counted(),
    decreases turns,
{
    if turns > 0 && shard.rings[l].len() > 0 {
        lemma_turn_balances(shard, b, l, now, i, n);
        invariants::lemma_turn(shard, b, l, now, i, n);
        let (s1, b1, found) = shard.turn(b, l, now);
        if found is None {
            lemma_pass_balances(s1, b1, l, (turns - 1) as nat, now, i, n);
            lemma_balanced_twice(
                b.stats,
                b1.stats,
                s1.pass(b1, l, (turns - 1) as nat, now).1.stats,
                0,
                0,
            );
        }
    } else {
        lemma_balanced_same(b.stats);
    }
}

/// The accounts balance over a dequeue from a shard.
proof fn lemma_dequeue_from_balances<T>(
    shard: ShardView<T>,
    b: BooksView<T>,
    l: int,
    now: Instant,
    i: int,
    n: nat,
)
    requires
        shard.inv(b.home, i, n),
        b.inv(),
        b.counted(),
        0 <= l <= LANES,
    ensures
        balanced(b.stats, shard.dequeue_from(b, l, now).1.stats, 0),
        shard.dequeue_from(b, l, now).1.counted(),
    decreases LANES - l,
{
    if l < LANES {
        let turns = shard.rings[l].len();
        lemma_pass_balances(shard, b, l, turns, now, i, n);
        invariants::lemma_pass(shard, b, l, turns, now, i, n);
        let (s1, b1, found) = shard.pass(b, l, turns, now);
        if found is None {
            lemma_dequeue_from_balances(s1, b1, l + 1, now, i, n);
            lemma_balanced_twice(
                b.stats,
                b1.stats,
                s1.dequeue_from(b1, l + 1, now).1.stats,
                0,
                0,
            );
        }
    } else {
        lemma_balanced_same(b.stats);
    }
}

/// The accounts balance over a sweep.
proof fn lemma_sweep_balances<T>(s: StateView<T>, turns: nat, now: Instant)
    requires
        s.inv(),
        s.books.counted(),
    ensures
        balanced(s.books.stats, s.sweep(turns, now).0.books.stats, 0),
        s.sweep(turns, now).0.books.counted(),
    decreases turns,
{
    if turns > 0 && s.ready.len() > 0 {
        let i = s.ready[0] as int;
        lemma_dequeue_from_balances(s.shards[i], s.books, 0, now, i, s.shards.len());
        invariants::lemma_shard_turn(s, now);
        let (s1, found) = s.shard_turn(now);
        if found is None {
            lemma_sweep_balances(s1, (turns - 1) as nat, now);
            lemma_balanced_twice(
                s.books.stats,
                s1.books.stats,
                s1.sweep((turns - 1) as nat, now).0.books.stats,
                0,
                0,
            );
        }
    } else {
        lemma_balanced_same(s.books.stats);
    }
}

/// The accounts balance over an attempt to dequeue.
pub proof fn lemma_dequeue_balances<T>(s: StateView<T>, now: Instant)
    requires
        s.inv(),
        s.books.counted(),
    ensures
        balanced(s.books.stats, s.dequeue(now).0.books.stats, 0),
        s.dequeue(now).0.books.counted(),
{
    lemma_sweep_balances(s, s.ready.len(), now);
    lemma_balanced_same(s.books.stats);
}

/// The accounts balance over purging a queue.
proof fn lemma_purge_balances<T>(
    b: BooksView<T>,
    queue: Seq<QueueEntry<T>>,
    t: u64,
    l: int,
    now: Instant,
)
    requires
        b.inv(),
        b.counted(),
        invariants::lane_ok(queue, t, l, b.home),
    ensures
        balanced(b.stats, model::purge(b, queue, now).0.stats, 0),
        model::purge(b, queue, now).0.counted(),
{
    lemma_purge_part_balances(b, queue, queue.len(), t, l, now);
    assert(queue.take(queue.len() as int) =~= queue);
}

/// The accounts balance over purging the first `n` entries of a queue.
proof fn lemma_purge_part_balances<T>(
    b: BooksView<T>,
    queue: Seq<QueueEntry<T>>,
    n: nat,
    t: u64,
    l: int,
    now: Instant,
)
    requires
        b.inv(),
        b.counted(),
        invariants::lane_ok(queue, t, l, b.home),
        n <= queue.len(),
    ensures
        balanced(b.stats, model::purge(b, queue.take(n as int), now).0.stats, 0),
        model::purge(b, queue.take(n as int), now).0.counted(),
    decreases n,
{
    let part = queue.take(n as int);
    if n > 0 {
        lemma_purge_part_balances(b, queue, (n - 1) as nat, t, l, now);
        assert(part.drop_last() =~= queue.take(n - 1));
        assert(part.drop_last() + queue.skip(n - 1) =~= queue);
        invariants::lemma_purge_part(b, part.drop_last(), queue.skip(n - 1), t, l, now);
        let (b1, kept) = model::purge(b, part.drop_last(), now);
        let entry = part.last();
        if b1.stale(entry, now) {
            let whole = kept + queue.skip(n - 1);
            assert(whole[kept.len() as int] == entry);
            lemma_discard_balances(b1, entry);
            lemma_balanced_twice(b.stats, b1.stats, b1.discard(entry).stats, 0, 0);
        }
    } else {
        lemma_balanced_same(b.stats);
    }
}

/// The accounts balance over purging lanes of a tenant.
proof fn lemma_purged_balances<T>(
    tenant: TenantView<T>,
    b: BooksView<T>,
    t: u64,
    n: nat,
    now: Instant,
)
    requires
        b.inv(),
        b.counted(),
        invariants::lanes_ok(tenant, t, b.home),
        n <= LANES,
    ensures
        balanced(b.stats, tenant.purged(b, n, now).0.stats, 0),
        tenant.purged(b, n, now).0.counted(),
    decreases n,
{
    if n > 0 {
        lemma_purged_balances(tenant, b, t, (n - 1) as nat, now);
        invariants::lemma_purged(tenant, b, t, (n - 1) as nat, now);
        let (b1, tenant1) = tenant.purged(b, (n - 1) as nat, now);
        let queue = tenant1.lanes[n - 1].queue;
        lemma_purge_balances(b1, queue, t, n - 1, now);
        lemma_balanced_twice(b.stats, b1.stats, model::purge(b1, queue, now).0.stats, 0, 0);
    } else {
        lemma_balanced_same(b.stats);
    }
}

/// The accounts balance over making room.
pub proof fn lemma_prepared_balances<T>(
    s: StateView<T>,
    limits: Limits,
    t: u64,
    quantum: int,
    now: Instant,
)
    requires
        s.inv(),
        s.books.counted(),
        1 <= quantum <= i64::MAX,
    ensures
        balanced(
            s.books.stats,
            s.prepared(limits, t, quantum, now).books.stats,
            0,
        ),
        s.prepared(limits, t, quantum, now).books.counted(),
{
    let i = s.shard_index(t);
    invariants::lemma_shard_index(s, t);
    invariants::lemma_tenant_or_fresh(s.shards[i], s.books.home, i, s.shards.len(), t, quantum);
    let tenant = s.shards[i].tenant_or_fresh(t, quantum);
    let counted = TenantView { since_purge: tenant.since_purge + 1, ..tenant };
    assert(invariants::lanes_ok(counted, t, s.books.home));
    lemma_purged_balances(tenant, s.books, t, LANES as nat, now);
    lemma_purged_balances(counted, s.books, t, LANES as nat, now);
    lemma_balanced_same(s.books.stats);
}

/// The accounts balance over an accepted task.
proof fn lemma_accepted_balances<T>(s: StateView<T>, t: u64, task: Task<T>)
    requires
        s.books.counted(),
    ensures
        balanced(s.books.stats, s.accepted(t, task, true).books.stats, 0),
        s.accepted(t, task, true).books.counted(),
{
}

/// The accounts balance over a task accepted in place of another.
proof fn lemma_swapped_balances<T>(s: StateView<T>, t: u64, l: int, p: int, task: Task<T>)
    requires
        s.books.counted(),
    ensures
        balanced(
            s.books.stats,
            s.without_victim(t, l, p).accepted(t, task, false).books.stats,
            0,
        ),
        s.without_victim(t, l, p).accepted(t, task, false).books.counted(),
{
}

/// The accounts balance over a rejection.
pub proof fn lemma_reject_balances<T>(s: StateView<T>, reason: EnqueueRejectReason)
    requires
        s.books.counted(),
    ensures
        balanced(s.books.stats, s.counting_reject(reason).books.stats, 0),
        s.counting_reject(reason).books.counted(),
{
}

/// The accounts balance over an attempt to enqueue.
pub proof fn lemma_try_enqueue_balances<T>(
    s: StateView<T>,
    limits: Limits,
    t: u64,
    task: Task<T>,
    quantum: int,
    now: Instant,
)
    requires
        s.inv(),
        s.books.counted(),
        1 <= quantum <= i64::MAX,
    ensures
        balanced(
            s.books.stats,
            s.try_enqueue(limits, t, task, quantum, now).0.books.stats,
            0,
        ),
        s.try_enqueue(limits, t, task, quantum, now).0.books.counted(),
{
    lemma_balanced_same(s.books.stats);
    lemma_prepared_balances(s, limits, t, quantum, now);
    let state = s.prepared(limits, t, quantum, now);
    lemma_accepted_balances(state, t, task);
    lemma_balanced_twice(
        s.books.stats,
        state.books.stats,
        state.accepted(t, task, true).books.stats,
        0,
        0,
    );
}

/// The accounts balance over an enqueue that turns tasks away.
pub proof fn lemma_enqueue_reject_balances<T>(
    s: StateView<T>,
    limits: Limits,
    t: u64,
    task: Task<T>,
    quantum: int,
    now: Instant,
)
    requires
        s.inv(),
        s.books.counted(),
        1 <= quantum <= i64::MAX,
    ensures
        balanced(
            s.books.stats,
            s.enqueue_reject(limits, t, task, quantum, now).0.books.stats,
            0,
        ),
        s.enqueue_reject(limits, t, task, quantum, now).0.books.counted(),
{
    lemma_try_enqueue_balances(s, limits, t, task, quantum, now);
    let (state, attempt) = s.try_enqueue(limits, t, task, quantum, now);
    if let EnqueueAttempt::Full(_, reason) = attempt {
        lemma_reject_balances(state, reason);
        lemma_balanced_twice(
            s.books.stats,
            state.books.stats,
            state.counting_reject(reason).books.stats,
            0,
            0,
        );
    }
}

/// The accounts balance over an enqueue that gives up tasks.
pub proof fn lemma_enqueue_drop_balances<T>(
    s: StateView<T>,
    limits: Limits,
    t: u64,
    task: Task<T>,
    strategy: DropStrategy,
    quantum: int,
    now: Instant,
)
    requires
        s.inv(),
        s.books.counted(),
        1 <= quantum <= i64::MAX,
    ensures
        balanced(
            s.books.stats,
            s.enqueue_drop(limits, t, task, strategy, quantum, now).0.books.stats,
            0,
        ),
        s.enqueue_drop(limits, t, task, strategy, quantum, now).0.books.counted(),
{
    lemma_balanced_same(s.books.stats);
    lemma_prepared_balances(s, limits, t, quantum, now);
    let state = s.prepared(limits, t, quantum, now);
    let after = s.enqueue_drop(limits, t, task, strategy, quantum, now).0;
    lemma_accepted_balances(state, t, task);
    lemma_reject_balances(state, EnqueueRejectReason::TenantFull);
    lemma_reject_balances(state, EnqueueRejectReason::GlobalFull);
    let tenant = state.tenant(t);
    if let Some(l) = tenant.victim_lane(task.priority.rank()) {
        lemma_swapped_balances(state, t, l, tenant.victim_position(l, strategy), task);
    }
    if s.shutdown == model::ShutdownState::Open {
        lemma_balanced_twice(s.books.stats, state.books.stats, after.books.stats, 0, 0);
    }
}

/// The accounts change by one with a task that is cancelled.
pub proof fn lemma_cancel_balances<T>(s: StateView<T>, id: u64)
    requires
        s.inv(),
        s.books.counted(),
    ensures
        balanced(
            s.books.stats,
            s.cancel(id).books.stats,
            if s.books.pending.contains(id) {
                1
            } else {
                0
            },
        ),
        s.cancel(id).books.counted(),
{
    if s.books.pending.contains(id) {
        assert(s.books.pending.len() > 0);
    }
}

} // verus!
