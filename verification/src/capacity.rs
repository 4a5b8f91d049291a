//! Proofs that no operation exceeds the limits.
use vstd::prelude::*;

use crate::api::{CloseMode, EnqueueRejectReason, QuantumProvider, Task};
use crate::invariants;
use crate::model;
use crate::model::{
    BooksView, DropStrategy, EnqueueAttempt, LaneView, Limits, QueueEntry, ShardView, StateView,
    TenantView, LANES,
};
use crate::talkers;
use crate::time::Instant;

verus! {

/// Stripping a queue makes neither it nor the count of live tasks grow.
pub proof fn lemma_strip_shrinks<T>(b: BooksView<T>, queue: Seq<QueueEntry<T>>, now: Instant)
    requires
        b.stats.queue_len_estimate >= 0,
    ensures
        model::strip(b, queue, now).1.len() <= queue.len(),
        0 <= model::strip(b, queue, now).0.stats.queue_len_estimate <= b.stats.queue_len_estimate,
        model::strip(b, queue, now).0.top == b.top,
    decreases queue.len(),
{
    if queue.len() > 0 && b.stale(queue[0], now) {
        lemma_strip_shrinks(b.discard(queue[0]), queue.drop_first(), now);
    }
}

/// Purging a queue makes neither it nor the count of live tasks grow.
pub proof fn lemma_purge_shrinks<T>(b: BooksView<T>, queue: Seq<QueueEntry<T>>, now: Instant)
    requires
        b.stats.queue_len_estimate >= 0,
    ensures
        model::purge(b, queue, now).1.len() <= queue.len(),
        0 <= model::purge(b, queue, now).0.stats.queue_len_estimate <= b.stats.queue_len_estimate,
        model::purge(b, queue, now).0.top == b.top,
    decreases queue.len(),
{
    if queue.len() > 0 {
        lemma_purge_shrinks(b, queue.drop_last(), now);
    }
}

/// A tenant whose lane is replaced by one that is no longer has no more entries.
proof fn lemma_settled_within<T>(
    shard: ShardView<T>,
    t: u64,
    l: int,
    lane: LaneView<T>,
    ring: Seq<u64>,
    limits: Limits,
)
    requires
        shard.within(limits),
        shard.tenants.contains_key(t),
        shard.tenants[t].lanes.len() == LANES,
        0 <= l < LANES,
        lane.queue.len() <= shard.tenants[t].lanes[l].queue.len(),
    ensures
        shard.settled(t, l, lane, ring).within(limits),
{
    let after = shard.settled(t, l, lane, ring);
    assert forall|u: u64| #[trigger] after.tenants.contains_key(u) implies after.tenants[u].total_len()
        <= limits.max_per_tenant by {
        assert(shard.tenants.contains_key(u));
    }
}

/// A turn keeps the limits.
proof fn lemma_turn_within<T>(
    shard: ShardView<T>,
    b: BooksView<T>,
    l: int,
    limits: Limits,
    now: Instant,
)
    requires
        shard.sound(),
        shard.within(limits),
        0 <= l < LANES,
        shard.rings[l].len() > 0,
        b.stats.queue_len_estimate >= 0,
    ensures
        shard.turn(b, l, now).0.within(limits),
        0 <= shard.turn(b, l, now).1.stats.queue_len_estimate <= b.stats.queue_len_estimate,
        shard.turn(b, l, now).1.top == talkers::credited(b.top, shard.turn(b, l, now).2),
{
    let t = shard.rings[l][0];
    assert(shard.tenants.contains_key(t));
    let lane = shard.tenants[t].lanes[l];
    lemma_strip_shrinks(b, lane.queue, now);
    let rest = shard.rings[l].drop_first();
    let (b1, queue) = model::strip(b, lane.queue, now);
    if queue.len() == 0 {
        lemma_settled_within(shard, t, l, LaneView { queue, active: false, ..lane }, rest, limits);
    } else {
        let cost = model::budget(queue[0].task.cost as int);
        if lane.deficit < cost {
            let deficit = model::budget(lane.deficit + shard.tenants[t].quantum);
            lemma_settled_within(
                shard,
                t,
                l,
                LaneView { queue, deficit, ..lane },
                rest.push(t),
                limits,
            );
        } else {
            let left = queue.drop_first();
            let after = LaneView {
                queue: left,
                deficit: lane.deficit - cost,
                active: lane.active && left.len() > 0,
            };
            let ring = if left.len() > 0 {
                rest.push(t)
            } else {
                rest
            };
            lemma_settled_within(shard, t, l, after, ring, limits);
        }
    }
}

/// A pass keeps the limits.
proof fn lemma_pass_within<T>(
    shard: ShardView<T>,
    b: BooksView<T>,
    l: int,
    turns: nat,
    limits: Limits,
    now: Instant,
    i: int,
    n: nat,
)
    requires
        b.inv(),
        shard.inv(b.home, i, n),
        shard.within(limits),
        0 <= l < LANES,
    ensures
        shard.pass(b, l, turns, now).0.within(limits),
        0 <= shard.pass(b, l, turns, now).1.stats.queue_len_estimate <= b.stats.queue_len_estimate,
        shard.pass(b, l, turns, now).1.top == talkers::credited(b.top, shard.pass(b, l, turns, now).2),
    decreases turns,
{
    if turns > 0 && shard.rings[l].len() > 0 {
        invariants::lemma_sound(shard, b.home, i, n);
        lemma_turn_within(shard, b, l, limits, now);
        invariants::lemma_turn(shard, b, l, now, i, n);
        let (shard1, b1, found) = shard.turn(b, l, now);
        if found is None {
            lemma_pass_within(shard1, b1, l, (turns - 1) as nat, limits, now, i, n);
        }
    }
}

/// A pass through the priorities keeps the limits.
proof fn lemma_dequeue_from_within<T>(
    shard: ShardView<T>,
    b: BooksView<T>,
    l: int,
    limits: Limits,
    now: Instant,
    i: int,
    n: nat,
)
    requires
        b.inv(),
        shard.inv(b.home, i, n),
        shard.within(limits),
        0 <= l,
    ensures
        shard.dequeue_from(b, l, now).0.within(limits),
        0 <= shard.dequeue_from(b, l, now).1.stats.queue_len_estimate
            <= b.stats.queue_len_estimate,
        shard.dequeue_from(b, l, now).1.top == talkers::credited(b.top, shard.dequeue_from(b, l, now).2),
    decreases LANES - l,
{
    if l < LANES {
        lemma_pass_within(shard, b, l, shard.rings[l].len(), limits, now, i, n);
        invariants::lemma_pass(shard, b, l, shard.rings[l].len(), now, i, n);
        let (shard1, b1, found) = shard.pass(b, l, shard.rings[l].len(), now);
        if found is None {
            lemma_dequeue_from_within(shard1, b1, l + 1, limits, now, i, n);
        }
    }
}

/// A sweep keeps the limits.
proof fn lemma_sweep_within<T>(s: StateView<T>, turns: nat, limits: Limits, now: Instant)
    requires
        s.inv(),
        s.within(limits),
    ensures
        s.sweep(turns, now).0.within(limits),
        s.sweep(turns, now).0.same_shape(s),
        s.sweep(turns, now).0.books.top == talkers::credited(s.books.top, s.sweep(turns, now).1),
    decreases turns,
{
    if turns > 0 && s.ready.len() > 0 {
        let i = s.ready[0] as int;
        lemma_dequeue_from_within(s.shards[i], s.books, 0, limits, now, i, s.shards.len());
        invariants::lemma_shard_turn(s, now);
        let (s1, found) = s.shard_turn(now);
        assert(s1.within(limits)) by {
            assert forall|j: int| 0 <= j < s1.shards.len() implies (
            #[trigger] s1.shards[j]).within(limits) by {
                if j != i {
                    assert(s.shards[j].within(limits));
                }
            }
        }
        if found is None {
            lemma_sweep_within(s1, (turns - 1) as nat, limits, now);
        }
    }
}

/// An attempt to dequeue keeps the limits.
pub proof fn lemma_dequeue_within<T>(s: StateView<T>, limits: Limits, now: Instant)
    requires
        s.inv(),
        s.within(limits),
    ensures
        s.dequeue(now).0.within(limits),
        s.dequeue(now).0.same_shape(s),
        s.dequeue(now).0.books.top == talkers::credited(s.books.top, s.dequeue(now).1),
{
    lemma_sweep_within(s, s.ready.len(), limits, now);
}

/// Purging a tenant makes neither it nor the count of live tasks grow.
proof fn lemma_purged_shrinks<T>(tenant: TenantView<T>, b: BooksView<T>, n: nat, now: Instant)
    requires
        b.stats.queue_len_estimate >= 0,
        tenant.lanes.len() == LANES,
        n <= LANES,
    ensures
        tenant.purged(b, n, now).1.lanes.len() == LANES,
        tenant.purged(b, n, now).1.total_len() <= tenant.total_len(),
        0 <= tenant.purged(b, n, now).0.stats.queue_len_estimate <= b.stats.queue_len_estimate,
        tenant.purged(b, n, now).0.top == b.top,
    decreases n,
{
    if n > 0 {
        lemma_purged_shrinks(tenant, b, (n - 1) as nat, now);
        let (b1, tenant1) = tenant.purged(b, (n - 1) as nat, now);
        lemma_purge_shrinks(b1, tenant1.lanes[n - 1].queue, now);
    }
}

/// Upkeep makes neither a tenant nor the count of live tasks grow.
pub proof fn lemma_tidied_shrinks<T>(
    tenant: TenantView<T>,
    b: BooksView<T>,
    limits: Limits,
    now: Instant,
)
    requires
        b.stats.queue_len_estimate >= 0,
        tenant.lanes.len() == LANES,
    ensures
        tenant.tidied(b, limits, now).1.total_len() <= tenant.total_len(),
        0 <= tenant.tidied(b, limits, now).0.stats.queue_len_estimate <= b.stats.queue_len_estimate,
        tenant.tidied(b, limits, now).0.top == b.top,
{
    lemma_purged_shrinks(tenant, b, LANES as nat, now);
    let counted = TenantView { since_purge: tenant.since_purge + 1, ..tenant };
    lemma_purged_shrinks(counted, b, LANES as nat, now);
}

/// Making room before an enqueue keeps the limits.
pub proof fn lemma_prepared_within<T>(
    s: StateView<T>,
    limits: Limits,
    t: u64,
    quantum: int,
    now: Instant,
)
    requires
        s.inv(),
        s.within(limits),
        1 <= quantum <= i64::MAX,
    ensures
        s.prepared(limits, t, quantum, now).within(limits),
        s.prepared(limits, t, quantum, now).same_shape(s),
        s.prepared(limits, t, quantum, now).books.top == s.books.top,
{
    let i = s.shard_index(t);
    invariants::lemma_shard_index(s, t);
    invariants::lemma_tenant_or_fresh(
        s.shards[i],
        s.books.home,
        i,
        s.shards.len(),
        t,
        quantum,
    );
    let tenant = s.shards[i].tenant_or_fresh(t, quantum);
    assert(tenant.total_len() <= limits.max_per_tenant);
    lemma_tidied_shrinks(tenant, s.books, limits, now);
    let after = s.prepared(limits, t, quantum, now);
    lemma_shards_within(s, after, i, t, limits);
}

/// A state in which one tenant changed is within the limits if that tenant is.
proof fn lemma_shards_within<T>(
    s: StateView<T>,
    after: StateView<T>,
    i: int,
    t: u64,
    limits: Limits,
)
    requires
        s.within(limits),
        0 <= i < s.shards.len(),
        after.shards == s.shards.update(i, after.shards[i]),
        after.shards[i].tenants == s.shards[i].tenants.insert(t, after.shards[i].tenants[t]),
        after.shards[i].tenants[t].total_len() <= limits.max_per_tenant,
    ensures
        forall|j: int| 0 <= j < after.shards.len() ==> (#[trigger] after.shards[j]).within(limits),
{
    assert forall|j: int| 0 <= j < after.shards.len() implies (#[trigger] after.shards[j]).within(
        limits,
    ) by {
        assert(s.shards[j].within(limits));
        if j == i {
            assert forall|u: u64| #[trigger] after.shards[j].tenants.contains_key(
                u,
            ) implies after.shards[j].tenants[u].total_len() <= limits.max_per_tenant by {
                if u != t {
                    assert(s.shards[j].tenants.contains_key(u));
                }
            }
        }
    }
}

/// A further task keeps the limits if there was room for it.
proof fn lemma_accepted_within<T>(
    s: StateView<T>,
    limits: Limits,
    t: u64,
    task: Task<T>,
    own_slot: bool,
)
    requires
        s.within(limits),
        s.shards.len() >= 1,
        s.knows(t),
        s.tenant(t).lanes.len() == LANES,
        !s.tenant(t).full(limits),
        own_slot ==> !s.books.global_full(limits),
    ensures
        s.accepted(t, task, own_slot).within(limits),
{
    let i = s.shard_index(t);
    invariants::lemma_shard_index(s, t);
    lemma_shards_within(s, s.accepted(t, task, own_slot), i, t, limits);
}

/// An attempt to enqueue keeps the limits.
pub proof fn lemma_try_enqueue_within<T>(
    s: StateView<T>,
    limits: Limits,
    t: u64,
    task: Task<T>,
    quantum: int,
    now: Instant,
)
    requires
        s.inv(),
        s.within(limits),
        1 <= quantum <= i64::MAX,
    ensures
        s.try_enqueue(limits, t, task, quantum, now).0.within(limits),
        s.try_enqueue(limits, t, task, quantum, now).0.same_shape(s),
{
    lemma_prepared_within(s, limits, t, quantum, now);
    invariants::lemma_prepared(s, limits, t, quantum, now);
    let state = s.prepared(limits, t, quantum, now);
    lemma_known_lanes(state, t);
    if !state.tenant(t).full(limits) && !state.books.global_full(limits) {
        lemma_accepted_within(state, limits, t, task, true);
    }
}

/// A known tenant has all its lanes.
proof fn lemma_known_lanes<T>(s: StateView<T>, t: u64)
    requires
        s.inv(),
        s.knows(t),
    ensures
        s.tenant(t).lanes.len() == LANES,
        0 <= s.shard_index(t) < s.shards.len(),
{
    invariants::lemma_shard_index(s, t);
    let i = s.shard_index(t);
    assert(s.shards[i].tenants.contains_key(t));
    assert(s.shards[i].inv(s.books.home, i, s.shards.len()));
    assert(s.shards[i].tenant_inv(t, s.books.home));
}

/// An enqueue that turns tasks away keeps the limits.
pub proof fn lemma_enqueue_reject_within<T>(
    s: StateView<T>,
    limits: Limits,
    t: u64,
    task: Task<T>,
    quantum: int,
    now: Instant,
)
    requires
        s.inv(),
        s.within(limits),
        1 <= quantum <= i64::MAX,
    ensures
        s.enqueue_reject(limits, t, task, quantum, now).0.within(limits),
        s.enqueue_reject(limits, t, task, quantum, now).0.same_shape(s),
{
    lemma_try_enqueue_within(s, limits, t, task, quantum, now);
    let (state, attempt) = s.try_enqueue(limits, t, task, quantum, now);
    if let EnqueueAttempt::Full(_, reason) = attempt {
        lemma_counting_within(state, reason, limits);
    }
}

/// Counting a rejection keeps the limits.
pub proof fn lemma_counting_within<T>(
    s: StateView<T>,
    reason: EnqueueRejectReason,
    limits: Limits,
)
    requires
        s.within(limits),
    ensures
        s.counting_reject(reason).within(limits),
{
}

/// An enqueue that gives up tasks keeps the limits.
pub proof fn lemma_enqueue_drop_within<T>(
    s: StateView<T>,
    limits: Limits,
    t: u64,
    task: Task<T>,
    strategy: DropStrategy,
    quantum: int,
    now: Instant,
)
    requires
        s.inv(),
        s.within(limits),
        1 <= quantum <= i64::MAX,
    ensures
        s.enqueue_drop(limits, t, task, strategy, quantum, now).0.within(limits),
        s.enqueue_drop(limits, t, task, strategy, quantum, now).0.same_shape(s),
{
    lemma_prepared_within(s, limits, t, quantum, now);
    invariants::lemma_prepared(s, limits, t, quantum, now);
    let state = s.prepared(limits, t, quantum, now);
    let tenant = state.tenant(t);
    let rank = task.priority.rank();
    lemma_known_lanes(state, t);
    if !tenant.full(limits) && !state.books.global_full(limits) {
        lemma_accepted_within(state, limits, t, task, true);
    } else if tenant.victim_lane(rank) is None || state.books.last_id >= u64::MAX {
        lemma_counting_within(state, EnqueueRejectReason::TenantFull, limits);
        lemma_counting_within(state, EnqueueRejectReason::GlobalFull, limits);
    } else {
        invariants::lemma_victim(tenant, rank, strategy);
        let l = tenant.victim_lane(rank)->0;
        let lighter = state.without_victim(t, l, tenant.victim_position(l, strategy));
        let i = state.shard_index(t);
        let known = state.shards[i];
        assert(known.tenants.contains_key(t));
        assert(lighter.tenant(t).total_len() < limits.max_per_tenant) by {
            assert(state.shards[i].within(limits));
        }
        lemma_shards_within(state, lighter, i, t, limits);
        lemma_accepted_within(lighter, limits, t, task, false);
    }
}

/// Cancelling keeps the limits.
pub proof fn lemma_cancel_within<T>(s: StateView<T>, id: u64, limits: Limits)
    requires
        s.inv(),
        s.within(limits),
    ensures
        s.cancel(id).within(limits),
{
}

/// Closing keeps the limits.
pub proof fn lemma_close_within<T>(s: StateView<T>, mode: CloseMode, limits: Limits)
    requires
        s.within(limits),
    ensures
        s.close(mode).within(limits),
{
}

/// Other quanta keep the limits.
pub proof fn lemma_same_but_quanta_within<T>(
    s: StateView<T>,
    after: StateView<T>,
    limits: Limits,
)
    requires
        s.within(limits),
        s.same_but_quanta(after),
    ensures
        after.within(limits),
{
    assert forall|j: int| 0 <= j < after.shards.len() implies (#[trigger] after.shards[j]).within(
        limits,
    ) by {
        assert(s.shards[j].within(limits));
        assert forall|u: u64| #[trigger] after.shards[j].tenants.contains_key(
            u,
        ) implies after.shards[j].tenants[u].total_len() <= limits.max_per_tenant by {
            assert(s.shards[j].tenants.contains_key(u));
        }
    }
}

/// Another quantum for a tenant keeps the limits.
pub proof fn lemma_with_quantum_within<T>(
    s: StateView<T>,
    t: u64,
    quantum: int,
    limits: Limits,
)
    requires
        s.inv(),
        s.within(limits),
    ensures
        s.with_quantum(t, quantum).within(limits),
        s.with_quantum(t, quantum).same_shape(s),
{
    if s.knows(t) {
        let i = s.shard_index(t);
        invariants::lemma_shard_index(s, t);
        assert(s.shards[i].within(limits));
        lemma_shards_within(s, s.with_quantum(t, quantum), i, t, limits);
    }
}

/// A new scheduler is within any limits.
pub proof fn lemma_initial_within<T>(
    count: nat,
    capacity: nat,
    quanta: Map<u64, u64>,
    provider: Option<QuantumProvider>,
    limits: Limits,
)
    ensures
        StateView::<T>::initial(count, capacity, quanta, provider).within(limits),
{
}

} // verus!
