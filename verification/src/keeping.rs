//! What becomes of tasks that are live: they stay where they are until they are handed out,
//! cancelled or given up, and what gives way to a new task is the tenant's least urgent.
use vstd::prelude::*;

use crate::api::{EnqueueRejectReason, EnqueueWithHandleResult, Task, TaskHandle};
use crate::delivery;
use crate::history;
use crate::history::sits;
use crate::invariants;
use crate::laws;
use crate::laws::Step;
use crate::model;
use crate::model::{
    BooksView, DropStrategy, Limits, QueueEntry, ShutdownState, StateView, TenantView, LANES,
};
use crate::time::Instant;

verus! {

/// The entry is in the tenant's lane, was not cancelled, and its deadline has not passed.
pub open spec fn lives<T>(s: StateView<T>, t: u64, l: int, e: QueueEntry<T>, now: Instant) -> bool {
    &&& sits(s, t, l, e)
    &&& !s.books.cancelled.contains(e.id)
    &&& (e.task.deadline matches Some(deadline) ==> now.nanos <= deadline.nanos)
}

/// What is in a lane and was not cancelled is pending, under the priority of the lane.
pub proof fn lemma_sitting_is_known<T>(s: StateView<T>, t: u64, l: int, e: QueueEntry<T>)
    requires
        s.inv(),
        sits(s, t, l, e),
    ensures
        e.task.priority.rank() == l,
        s.books.home.contains_key(e.id),
        s.books.home[e.id] == (t, l),
        s.books.pending.contains(e.id) <==> !s.books.cancelled.contains(e.id),
        1 <= e.id <= s.books.last_id,
{
    let i = s.shard_index(t);
    invariants::lemma_shard_index(s, t);
    invariants::lemma_lane_of_shard(s.shards[i], s.books.home, i, s.shards.len(), t, l);
    let queue = s.tenant(t).lanes[l].queue;
    let p = choose|p: int| 0 <= p < queue.len() && queue[p] == e;
    assert(queue[p] == e);
    assert(s.books.home.contains_key(queue[p].id));
    assert(s.books.home.dom().contains(e.id));
    assert(s.books.pending.union(s.books.cancelled).contains(e.id));
}

/// Numbers tell entries apart.
pub proof fn lemma_same_number<T>(
    s: StateView<T>,
    t: u64,
    l: int,
    e: QueueEntry<T>,
    u: u64,
    m: int,
    f: QueueEntry<T>,
)
    requires
        s.inv(),
        sits(s, t, l, e),
        sits(s, u, m, f),
        e.id == f.id,
    ensures
        t == u,
        l == m,
        e == f,
{
    lemma_sitting_is_known(s, t, l, e);
    lemma_sitting_is_known(s, u, m, f);
    let i = s.shard_index(t);
    invariants::lemma_shard_index(s, t);
    invariants::lemma_lane_of_shard(s.shards[i], s.books.home, i, s.shards.len(), t, l);
    let queue = s.tenant(t).lanes[l].queue;
    let p = choose|p: int| 0 <= p < queue.len() && queue[p] == e;
    let q = choose|q: int| 0 <= q < queue.len() && queue[q] == f;
    if p < q {
        assert(queue[p].id < queue[q].id);
    }
    if q < p {
        assert(queue[q].id < queue[p].id);
    }
}

/// Compaction keeps what is not stale.
proof fn lemma_purge_keeps<T>(
    b: BooksView<T>,
    queue: Seq<QueueEntry<T>>,
    now: Instant,
    e: QueueEntry<T>,
)
    requires
        !b.stale(e, now),
    ensures
        model::purge(b, queue, now).0.cancelled.subset_of(b.cancelled),
        queue.contains(e) ==> model::purge(b, queue, now).1.contains(e),
    decreases queue.len(),
{
    if queue.len() > 0 {
        let front = queue.drop_last();
        lemma_purge_keeps(b, front, now, e);
        let (b1, kept) = model::purge(b, front, now);
        let after = model::purge(b, queue, now).1;
        if queue.contains(e) {
            let p = choose|p: int| 0 <= p < queue.len() && queue[p] == e;
            if p < front.len() {
                assert(front[p] == e);
                assert(kept.contains(e));
                let q = choose|q: int| 0 <= q < kept.len() && kept[q] == e;
                assert(after[q] == e);
            } else {
                assert(after[kept.len() as int] == e);
            }
        }
    }
}

/// Compaction of lanes keeps what is not stale.
proof fn lemma_purged_keeps<T>(
    tenant: TenantView<T>,
    b: BooksView<T>,
    n: nat,
    now: Instant,
    l: int,
    e: QueueEntry<T>,
)
    requires
        tenant.lanes.len() == LANES,
        n <= LANES,
        0 <= l < LANES,
        !b.stale(e, now),
        tenant.lanes[l].queue.contains(e),
    ensures
        tenant.purged(b, n, now).1.lanes.len() == LANES,
        tenant.purged(b, n, now).0.cancelled.subset_of(b.cancelled),
        tenant.purged(b, n, now).1.lanes[l].queue.contains(e),
    decreases n,
{
    if n > 0 {
        lemma_purged_keeps(tenant, b, (n - 1) as nat, now, l, e);
        let (b1, tenant1) = tenant.purged(b, (n - 1) as nat, now);
        lemma_purge_keeps(b1, tenant1.lanes[n - 1].queue, now, e);
    }
}

/// Making a tenant known and tidying it keeps what is live.
pub proof fn lemma_prepared_keeps<T>(
    s: StateView<T>,
    limits: Limits,
    t: u64,
    quantum: int,
    now: Instant,
    u: u64,
    l: int,
    e: QueueEntry<T>,
)
    requires
        s.inv(),
        1 <= quantum <= i64::MAX,
        lives(s, u, l, e, now),
    ensures
        lives(s.prepared(limits, t, quantum, now), u, l, e, now),
{
    let i = s.shard_index(t);
    let n = s.shards.len();
    invariants::lemma_shard_index(s, t);
    invariants::lemma_shard_index(s, u);
    invariants::lemma_prepared(s, limits, t, quantum, now);
    invariants::lemma_tenant_or_fresh(s.shards[i], s.books.home, i, n, t, quantum);
    let before = s.shards[i].tenant_or_fresh(t, quantum);
    invariants::lemma_tidied(before, s.books, limits, t, now);
    let counted = TenantView { since_purge: before.since_purge + 1, ..before };
    if u == t {
        lemma_purged_keeps(before, s.books, LANES as nat, now, l, e);
        lemma_purged_keeps(counted, s.books, LANES as nat, now, l, e);
        assert(s.prepared(limits, t, quantum, now).tenant(t) == before.tidied(
            s.books,
            limits,
            now,
        ).1);
    }
}

/// Accepting a task moves none of the others.
proof fn lemma_accepted_keeps<T>(
    s: StateView<T>,
    t: u64,
    task: Task<T>,
    own_slot: bool,
    u: u64,
    l: int,
    e: QueueEntry<T>,
)
    requires
        s.shards.len() >= 1,
        s.knows(t),
        s.tenant(t).lanes.len() == LANES,
        sits(s, u, l, e),
    ensures
        sits(s.accepted(t, task, own_slot), u, l, e),
        s.accepted(t, task, own_slot).books.cancelled == s.books.cancelled,
{
    invariants::lemma_shard_index(s, t);
    invariants::lemma_shard_index(s, u);
    let queue = s.tenant(u).lanes[l].queue;
    let after = s.accepted(t, task, own_slot).tenant(u).lanes[l].queue;
    let p = choose|p: int| 0 <= p < queue.len() && queue[p] == e;
    assert(after[p] == e);
}

/// A task that is accepted is the last of its queue, under the next number.
proof fn lemma_accepted_is_last<T>(s: StateView<T>, t: u64, task: Task<T>, own_slot: bool)
    requires
        s.shards.len() >= 1,
        s.knows(t),
        s.tenant(t).lanes.len() == LANES,
    ensures
        ({
            let after = s.accepted(t, task, own_slot);
            let l = task.priority.rank();
            let e = QueueEntry { id: (s.books.last_id + 1) as u64, task };
            &&& after.knows(t)
            &&& after.tenant(t).lanes[l].queue == s.tenant(t).lanes[l].queue.push(e)
            &&& sits(after, t, l, e)
        }),
{
    invariants::lemma_shard_index(s, t);
    let after = s.accepted(t, task, own_slot);
    let l = task.priority.rank();
    let e = QueueEntry { id: (s.books.last_id + 1) as u64, task };
    let queue = after.tenant(t).lanes[l].queue;
    assert(queue =~= s.tenant(t).lanes[l].queue.push(e));
    assert(queue[queue.len() - 1] == e);
}

/// The enqueue left the task as the last of its tenant's queue for its priority, under the
/// number of the handle, which no task had before.
pub open spec fn joined<T>(
    s: StateView<T>,
    after: StateView<T>,
    t: u64,
    task: Task<T>,
    handle: TaskHandle,
) -> bool {
    let l = task.priority.rank();
    let queue = after.tenant(t).lanes[l].queue;
    &&& handle.0 > s.books.last_id
    &&& after.knows(t)
    &&& queue.len() > 0
    &&& queue.last() == (QueueEntry { id: handle.0, task })
    &&& sits(after, t, l, queue.last())
    &&& after.books.pending.contains(handle.0)
    &&& !after.books.cancelled.contains(handle.0)
}

/// What accepting does, whatever makes way.
proof fn lemma_accepted_joins<T>(
    s: StateView<T>,
    lighter: StateView<T>,
    t: u64,
    task: Task<T>,
    own_slot: bool,
)
    requires
        s.inv(),
        lighter.shards.len() >= 1,
        lighter.knows(t),
        lighter.tenant(t).lanes.len() == LANES,
        lighter.books.last_id == s.books.last_id,
        s.books.last_id < u64::MAX,
        lighter.accepted(t, task, own_slot).inv(),
    ensures
        joined(
            s,
            lighter.accepted(t, task, own_slot),
            t,
            task,
            TaskHandle((s.books.last_id + 1) as u64),
        ),
{
    lemma_accepted_is_last(lighter, t, task, own_slot);
    let after = lighter.accepted(t, task, own_slot);
    let l = task.priority.rank();
    let e = QueueEntry { id: (s.books.last_id + 1) as u64, task };
    assert(after.tenant(t).lanes[l].queue.last() == e);
    lemma_sitting_is_known(after, t, l, e);
    assert(after.books.pending.contains(e.id));
}

/// Whatever the policy, an enqueue that answers with a handle has put the task, field by
/// field, at the end of its tenant's queue for its priority, under that handle.
pub proof fn law_accepted_tasks_are_queued<T>(
    s: StateView<T>,
    limits: Limits,
    t: u64,
    task: Task<T>,
    strategy: DropStrategy,
    quantum: int,
    now: Instant,
    deadline: Instant,
    handle: TaskHandle,
)
    requires
        s.inv(),
        1 <= quantum <= i64::MAX,
    ensures
        ({
            let (after, r) = s.enqueue_reject(limits, t, task, quantum, now);
            r == EnqueueWithHandleResult::Enqueued(handle) ==> joined(s, after, t, task, handle)
        }),
        ({
            let (after, r) = s.enqueue_drop(limits, t, task, strategy, quantum, now);
            r == EnqueueWithHandleResult::Enqueued(handle) ==> joined(s, after, t, task, handle)
        }),
        ({
            let (after, r) = s.timed_enqueue(limits, t, task, quantum, now, deadline);
            r == model::TimedAttempt::<T>::Done(EnqueueWithHandleResult::Enqueued(handle))
                ==> joined(s, after, t, task, handle)
        }),
{
    if s.shutdown == ShutdownState::Open {
        history::lemma_prepared_lanes(s, limits, t, quantum, now);
        let state = s.prepared(limits, t, quantum, now);
        let tenant = state.tenant(t);
        invariants::lemma_try_enqueue(s, limits, t, task, quantum, now);
        invariants::lemma_enqueue_drop(s, limits, t, task, strategy, quantum, now);
        if !tenant.full(limits) && !state.books.global_full(limits) {
            lemma_accepted_joins(s, state, t, task, true);
        } else if tenant.victim_lane(task.priority.rank()) is Some && state.books.last_id
            < u64::MAX {
            let l = tenant.victim_lane(task.priority.rank())->0;
            let lighter = state.without_victim(t, l, tenant.victim_position(l, strategy));
            invariants::lemma_shard_index(state, t);
            lemma_accepted_joins(s, lighter, t, task, false);
        }
    }
}

/// First work is announced: a task that is accepted into a queue that was empty is a change
/// that waiting threads are told of, whatever the policy.
pub proof fn law_first_work_is_announced<T>(
    s: StateView<T>,
    limits: Limits,
    t: u64,
    task: Task<T>,
    strategy: DropStrategy,
    quantum: int,
    now: Instant,
    deadline: Instant,
)
    requires
        s.inv(),
        1 <= quantum <= i64::MAX,
        s.knows(t) ==> s.tenant(t).lanes[task.priority.rank()].queue.len() == 0,
    ensures
        ({
            let (after, r) = s.enqueue_reject(limits, t, task, quantum, now);
            r is Enqueued ==> after.books.wake
        }),
        ({
            let (after, r) = s.enqueue_drop(limits, t, task, strategy, quantum, now);
            r is Enqueued ==> after.books.wake
        }),
        ({
            let (after, r) = s.timed_enqueue(limits, t, task, quantum, now, deadline);
            (r matches model::TimedAttempt::Done(done) && done is Enqueued) ==> after.books.wake
        }),
{
    let l = task.priority.rank();
    history::lemma_prepared_lanes(s, limits, t, quantum, now);
    let state = s.prepared(limits, t, quantum, now);
    let tenant = state.tenant(t);
    invariants::lemma_shard_index(state, t);
    if tenant.lanes[l].queue.len() > 0 {
        let e = tenant.lanes[l].queue[0];
        assert(tenant.lanes[l].queue.contains(e));
        assert(sits(state, t, l, e));
        history::lemma_prepared_sits(s, limits, t, quantum, now, t, l, e);
    }
    if tenant.victim_lane(l) is Some {
        let v = tenant.victim_lane(l)->0;
        let lighter = state.without_victim(t, v, tenant.victim_position(v, strategy));
        assert(lighter.tenant(t).lanes[l].queue.len() == 0);
    }
}

/// A tenant that is known keeps what it is granted per round when tasks come for it, and a
/// new one starts with the quantum that it was given; what other tenants are granted does
/// not change.
pub proof fn law_tenants_keep_their_quantum<T>(
    s: StateView<T>,
    limits: Limits,
    t: u64,
    task: Task<T>,
    strategy: DropStrategy,
    quantum: int,
    now: Instant,
    u: u64,
)
    requires
        s.inv(),
        1 <= quantum <= i64::MAX,
        s.shutdown == ShutdownState::Open,
    ensures
        ({
            let tried = s.try_enqueue(limits, t, task, quantum, now).0;
            let swapped = s.enqueue_drop(limits, t, task, strategy, quantum, now).0;
            &&& tried.knows(t) && swapped.knows(t)
            &&& !s.knows(t) ==> tried.tenant(t).quantum == quantum && swapped.tenant(t).quantum
                == quantum
            &&& s.knows(u) ==> {
                &&& tried.knows(u) && swapped.knows(u)
                &&& tried.tenant(u).quantum == s.tenant(u).quantum
                &&& swapped.tenant(u).quantum == s.tenant(u).quantum
            }
        }),
{
    invariants::lemma_shard_index(s, t);
    invariants::lemma_shard_index(s, u);
    history::lemma_prepared_lanes(s, limits, t, quantum, now);
    let state = s.prepared(limits, t, quantum, now);
    let before = s.shards[s.shard_index(t)].tenant_or_fresh(t, quantum);
    let counted = TenantView { since_purge: before.since_purge + 1, ..before };
    lemma_purged_quantum(before, s.books, LANES as nat, now);
    lemma_purged_quantum(counted, s.books, LANES as nat, now);
    assert(state.tenant(t).quantum == before.quantum);
}

/// Compaction does not touch the quantum.
proof fn lemma_purged_quantum<T>(tenant: TenantView<T>, b: BooksView<T>, n: nat, now: Instant)
    ensures
        tenant.purged(b, n, now).1.quantum == tenant.quantum,
    decreases n,
{
    if n > 0 {
        lemma_purged_quantum(tenant, b, (n - 1) as nat, now);
    }
}

/// Budget is earned by turns, not by offering tasks: an enqueue leaves the unspent budget of
/// every lane as it is, and a new tenant starts with none.
pub proof fn law_enqueues_earn_nothing<T>(
    s: StateView<T>,
    limits: Limits,
    t: u64,
    task: Task<T>,
    strategy: DropStrategy,
    quantum: int,
    now: Instant,
    u: u64,
    l: int,
)
    requires
        s.inv(),
        1 <= quantum <= i64::MAX,
        s.shutdown == ShutdownState::Open,
        0 <= l < LANES,
    ensures
        ({
            let tried = s.try_enqueue(limits, t, task, quantum, now).0;
            let swapped = s.enqueue_drop(limits, t, task, strategy, quantum, now).0;
            &&& !s.knows(t) ==> tried.tenant(t).lanes[l].deficit == 0 && swapped.tenant(
                t,
            ).lanes[l].deficit == 0
            &&& s.knows(u) ==> tried.tenant(u).lanes[l].deficit == s.tenant(u).lanes[l].deficit
            &&& s.knows(u) ==> swapped.tenant(u).lanes[l].deficit == s.tenant(u).lanes[l].deficit
        }),
{
    invariants::lemma_shard_index(s, t);
    invariants::lemma_shard_index(s, u);
    history::lemma_prepared_lanes(s, limits, t, quantum, now);
    let i = s.shard_index(t);
    let state = s.prepared(limits, t, quantum, now);
    let before = s.shards[i].tenant_or_fresh(t, quantum);
    let counted = TenantView { since_purge: before.since_purge + 1, ..before };
    invariants::lemma_tenant_or_fresh(s.shards[i], s.books.home, i, s.shards.len(), t, quantum);
    lemma_purged_deficit(before, s.books, LANES as nat, now, l);
    lemma_purged_deficit(counted, s.books, LANES as nat, now, l);
    assert(state.tenant(t).lanes[l].deficit == before.lanes[l].deficit);
    let tenant = state.tenant(t);
    let rank = task.priority.rank();
    if tenant.victim_lane(rank) is Some {
        let v = tenant.victim_lane(rank)->0;
        let lighter = state.without_victim(t, v, tenant.victim_position(v, strategy));
        assert(lighter.tenant(t).lanes[l].deficit == tenant.lanes[l].deficit);
    }
}

/// Compaction does not touch the budget.
proof fn lemma_purged_deficit<T>(
    tenant: TenantView<T>,
    b: BooksView<T>,
    n: nat,
    now: Instant,
    l: int,
)
    requires
        n <= tenant.lanes.len(),
        0 <= l < tenant.lanes.len(),
    ensures
        tenant.purged(b, n, now).1.lanes.len() == tenant.lanes.len(),
        tenant.purged(b, n, now).1.lanes[l].deficit == tenant.lanes[l].deficit,
    decreases n,
{
    if n > 0 {
        lemma_purged_deficit(tenant, b, (n - 1) as nat, now, l);
    }
}

/// An enqueue that turns tasks away, or waits, takes nothing from anybody.
pub proof fn law_refusing_takes_nothing_away<T>(
    s: StateView<T>,
    limits: Limits,
    t: u64,
    task: Task<T>,
    quantum: int,
    now: Instant,
    u: u64,
    l: int,
    e: QueueEntry<T>,
)
    requires
        s.inv(),
        1 <= quantum <= i64::MAX,
        lives(s, u, l, e, now),
    ensures
        lives(s.try_enqueue(limits, t, task, quantum, now).0, u, l, e, now),
        lives(s.enqueue_reject(limits, t, task, quantum, now).0, u, l, e, now),
{
    if s.shutdown == ShutdownState::Open {
        history::lemma_prepared_lanes(s, limits, t, quantum, now);
        lemma_prepared_keeps(s, limits, t, quantum, now, u, l, e);
        let state = s.prepared(limits, t, quantum, now);
        lemma_accepted_keeps(state, t, task, true, u, l, e);
    }
}

/// Upkeep comes round: of so many enqueues of a tenant, whether they are accepted or not,
/// the last one compacts its queues, so that nothing stale is left in them; that is
/// counted, and the enqueues are counted from zero again. Other enqueues only add to that
/// count.
pub proof fn law_upkeep_comes_round<T>(
    s: StateView<T>,
    limits: Limits,
    t: u64,
    task: Task<T>,
    quantum: int,
    now: Instant,
)
    requires
        s.inv(),
        1 <= quantum <= i64::MAX,
        s.shutdown == ShutdownState::Open,
    ensures
        ({
            let after = s.try_enqueue(limits, t, task, quantum, now).0;
            let made = if s.knows(t) {
                s.tenant(t).since_purge
            } else {
                0
            };
            if made + 1 == 64 {
                &&& after.tenant(t).since_purge == 0
                &&& after.books.purge_runs == model::sat(s.books.purge_runs + 1)
                &&& forall|l: int, e: QueueEntry<T>| #[trigger]
                    sits(after, t, l, e) && e.id <= s.books.last_id ==> lives(after, t, l, e, now)
            } else {
                &&& after.tenant(t).since_purge == made + 1
                &&& after.books.purge_runs == s.books.purge_runs
            }
        }),
{
    invariants::lemma_shard_index(s, t);
    history::lemma_prepared_lanes(s, limits, t, quantum, now);
    let state = s.prepared(limits, t, quantum, now);
    let i = s.shard_index(t);
    let before = s.shards[i].tenant_or_fresh(t, quantum);
    let counted = TenantView { since_purge: before.since_purge + 1, ..before };
    invariants::lemma_tenant_or_fresh(s.shards[i], s.books.home, i, s.shards.len(), t, quantum);
    lemma_purged_runs(before, s.books, LANES as nat, now);
    lemma_purged_runs(counted, s.books, LANES as nat, now);
    assert(state.tenant(t) == before.tidied(s.books, limits, now).1);
    let after = s.try_enqueue(limits, t, task, quantum, now).0;
    if before.since_purge + 1 == 64 {
        assert forall|l: int, e: QueueEntry<T>| #[trigger]
            sits(after, t, l, e) && e.id <= s.books.last_id implies lives(after, t, l, e, now) by {
            let queue = after.tenant(t).lanes[l].queue;
            let kept = state.tenant(t).lanes[l].queue;
            let p = choose|p: int| 0 <= p < queue.len() && queue[p] == e;
            if p >= kept.len() {
                lemma_accepted_is_last(state, t, task, true);
            }
            assert(kept[p] == e);
            lemma_purged_is_fresh(before, s.books, LANES as nat, now, l);
            assert(!state.books.stale(kept[p], now));
        }
    }
}

/// Compactions of lanes are not what is counted.
proof fn lemma_purged_runs<T>(tenant: TenantView<T>, b: BooksView<T>, n: nat, now: Instant)
    ensures
        tenant.purged(b, n, now).1.since_purge == tenant.since_purge,
        tenant.purged(b, n, now).0.purge_runs == b.purge_runs,
    decreases n,
{
    if n > 0 {
        lemma_purged_runs(tenant, b, (n - 1) as nat, now);
        let (b1, tenant1) = tenant.purged(b, (n - 1) as nat, now);
        lemma_purge_runs(b1, tenant1.lanes[n - 1].queue, now);
    }
}

/// The same of one lane.
proof fn lemma_purge_runs<T>(b: BooksView<T>, queue: Seq<QueueEntry<T>>, now: Instant)
    ensures
        model::purge(b, queue, now).0.purge_runs == b.purge_runs,
        model::purge(b, queue, now).0.cancelled.subset_of(b.cancelled),
    decreases queue.len(),
{
    if queue.len() > 0 {
        lemma_purge_runs(b, queue.drop_last(), now);
    }
}

/// A lane that was compacted has nothing stale.
proof fn lemma_purge_is_fresh<T>(b: BooksView<T>, queue: Seq<QueueEntry<T>>, now: Instant)
    ensures
        ({
            let (b1, kept) = model::purge(b, queue, now);
            forall|p: int| 0 <= p < kept.len() ==> !b1.stale(#[trigger] kept[p], now)
        }),
    decreases queue.len(),
{
    if queue.len() > 0 {
        lemma_purge_is_fresh(b, queue.drop_last(), now);
        let (b0, before) = model::purge(b, queue.drop_last(), now);
        let (b1, kept) = model::purge(b, queue, now);
        assert forall|p: int| 0 <= p < kept.len() implies !b1.stale(#[trigger] kept[p], now) by {
            if p < before.len() {
                assert(!b0.stale(before[p], now));
                assert(kept[p] == before[p]);
            }
        }
    }
}

/// Lanes that were compacted have nothing stale.
proof fn lemma_purged_is_fresh<T>(
    tenant: TenantView<T>,
    b: BooksView<T>,
    n: nat,
    now: Instant,
    l: int,
)
    requires
        tenant.lanes.len() == LANES,
        n <= LANES,
        0 <= l < n,
    ensures
        tenant.purged(b, n, now).1.lanes.len() == LANES,
        ({
            let (b1, after) = tenant.purged(b, n, now);
            forall|p: int|
                0 <= p < after.lanes[l].queue.len() ==> !b1.stale(
                    #[trigger] after.lanes[l].queue[p],
                    now,
                )
        }),
    decreases n,
{
    let (b1, tenant1) = tenant.purged(b, (n - 1) as nat, now);
    lemma_purged_lanes(tenant, b, (n - 1) as nat, now);
    lemma_purge_is_fresh(b1, tenant1.lanes[n - 1].queue, now);
    lemma_purge_runs(b1, tenant1.lanes[n - 1].queue, now);
    if l < n - 1 {
        lemma_purged_is_fresh(tenant, b, (n - 1) as nat, now, l);
    }
}

/// There are as many lanes as before.
proof fn lemma_purged_lanes<T>(tenant: TenantView<T>, b: BooksView<T>, n: nat, now: Instant)
    requires
        n <= tenant.lanes.len(),
    ensures
        tenant.purged(b, n, now).1.lanes.len() == tenant.lanes.len(),
    decreases n,
{
    if n > 0 {
        lemma_purged_lanes(tenant, b, (n - 1) as nat, now);
    }
}

/// Giving up an entry moves none of the others.
proof fn lemma_victim_keeps<T>(
    s: StateView<T>,
    t: u64,
    v: int,
    p: int,
    u: u64,
    l: int,
    e: QueueEntry<T>,
)
    requires
        s.inv(),
        s.knows(t),
        0 <= v < LANES,
        0 <= p < s.tenant(t).lanes[v].queue.len(),
        sits(s, u, l, e),
        e.id != s.tenant(t).lanes[v].queue[p].id,
    ensures
        sits(s.without_victim(t, v, p), u, l, e),
        s.without_victim(t, v, p).books.cancelled == s.books.cancelled,
{
    invariants::lemma_shard_index(s, t);
    invariants::lemma_shard_index(s, u);
    assert(s.shards[s.shard_index(t)].tenant_inv(t, s.books.home));
    if u == t && l == v {
        let queue = s.tenant(t).lanes[v].queue;
        let after = s.without_victim(t, v, p).tenant(t).lanes[v].queue;
        assert(after =~= queue.remove(p));
        let q = choose|q: int| 0 <= q < queue.len() && queue[q] == e;
        if q < p {
            assert(after[q] == e);
        } else {
            assert(after[q - 1] == e);
        }
    }
}

/// A limit stands in the way of the enqueue that left this state: the tenant has as many
/// entries as it may have, or as many tasks are pending as may be.
pub open spec fn at_limit<T>(after: StateView<T>, limits: Limits, t: u64) -> bool {
    ||| after.tenant(t).total_len() >= limits.max_per_tenant
    ||| after.books.stats.queue_len_estimate >= limits.max_global
}

/// Who gives way. If an enqueue that may give up a task costs a live task its place, then
/// the new task was accepted, and there was no room for it without that; the lost task is
/// of the same tenant and no more urgent than the new one; the tenant has no live task
/// that is less urgent; and of its live tasks of that priority, it is the oldest by the
/// one strategy and the newest by the other.
pub proof fn law_the_least_urgent_gives_way<T>(
    s: StateView<T>,
    limits: Limits,
    t: u64,
    task: Task<T>,
    strategy: DropStrategy,
    quantum: int,
    now: Instant,
    u: u64,
    l: int,
    e: QueueEntry<T>,
)
    requires
        s.inv(),
        1 <= quantum <= i64::MAX,
        lives(s, u, l, e, now),
        !s.enqueue_drop(limits, t, task, strategy, quantum, now).0.books.pending.contains(e.id),
    ensures
        s.enqueue_drop(limits, t, task, strategy, quantum, now).1 is Enqueued,
        at_limit(s.enqueue_drop(limits, t, task, strategy, quantum, now).0, limits, t),
        u == t,
        l >= task.priority.rank(),
        forall|m: int, f: QueueEntry<T>| l < m ==> !#[trigger] lives(s, t, m, f, now),
        forall|f: QueueEntry<T>| #[trigger]
            lives(s, t, l, f, now) ==> match strategy {
                DropStrategy::Oldest => e.id <= f.id,
                DropStrategy::Newest => f.id <= e.id,
            },
{
    lemma_sitting_is_known(s, u, l, e);
    history::lemma_prepared_lanes(s, limits, t, quantum, now);
    invariants::lemma_prepared(s, limits, t, quantum, now);
    let state = s.prepared(limits, t, quantum, now);
    let tenant = state.tenant(t);
    let rank = task.priority.rank();
    invariants::lemma_enqueue_drop(s, limits, t, task, strategy, quantum, now);
    let after = s.enqueue_drop(limits, t, task, strategy, quantum, now).0;
    if s.shutdown == ShutdownState::Open {
        lemma_prepared_keeps(s, limits, t, quantum, now, u, l, e);
        lemma_sitting_is_known(state, u, l, e);
        if tenant.victim_lane(rank) is Some {
            let v = tenant.victim_lane(rank)->0;
            let p = tenant.victim_position(v, strategy);
            let queue = tenant.lanes[v].queue;
            assert(queue.len() > 0);
            let lost = queue[p];
            assert(queue.contains(lost));
            assert(sits(state, t, v, lost));
            if e.id == lost.id {
                lemma_same_number(state, u, l, e, t, v, lost);
            }
        }
        assert(e.id == tenant.lanes[tenant.victim_lane(rank)->0].queue[tenant.victim_position(
            tenant.victim_lane(rank)->0,
            strategy,
        )].id);
        assert(u == t && l == tenant.victim_lane(rank)->0);
        assert forall|m: int, f: QueueEntry<T>| l < m implies !#[trigger] lives(
            s,
            t,
            m,
            f,
            now,
        ) by {
            if lives(s, t, m, f, now) {
                lemma_prepared_keeps(s, limits, t, quantum, now, t, m, f);
                assert(tenant.lanes[m].queue.contains(f));
                assert(tenant.lanes[m].queue.len() > 0);
            }
        }
        assert forall|f: QueueEntry<T>| #[trigger] lives(s, t, l, f, now) implies match strategy {
            DropStrategy::Oldest => e.id <= f.id,
            DropStrategy::Newest => f.id <= e.id,
        } by {
            lemma_prepared_keeps(s, limits, t, quantum, now, t, l, f);
            let queue = tenant.lanes[l].queue;
            let i = state.shard_index(t);
            invariants::lemma_shard_index(state, t);
            invariants::lemma_lane_of_shard(
                state.shards[i],
                state.books.home,
                i,
                state.shards.len(),
                t,
                l,
            );
            let q = choose|q: int| 0 <= q < queue.len() && queue[q] == f;
            let p = tenant.victim_position(l, strategy);
            if p < q {
                assert(queue[p].id < queue[q].id);
            }
            if q < p {
                assert(queue[q].id < queue[p].id);
            }
        }
        lemma_swap_len(state, t, task, l, tenant.victim_position(l, strategy));
    }
}

/// What became of the tenant's live tasks, and of those of others, when one was to make
/// room for a new task of the given rank: if one is gone, it is of the tenant, no more
/// urgent than the new one, among the tenant's least urgent, and the oldest or the newest
/// of those.
pub open spec fn spares<T>(
    s: StateView<T>,
    after: StateView<T>,
    t: u64,
    rank: int,
    strategy: DropStrategy,
    now: Instant,
) -> bool {
    forall|u: u64, l: int, e: QueueEntry<T>| #[trigger]
        lives(s, u, l, e, now) && !after.books.pending.contains(e.id) ==> {
            &&& u == t
            &&& l >= rank
            &&& forall|m: int, f: QueueEntry<T>| l < m ==> !#[trigger] lives(s, t, m, f, now)
            &&& forall|f: QueueEntry<T>| #[trigger]
                lives(s, t, l, f, now) ==> match strategy {
                    DropStrategy::Oldest => e.id <= f.id,
                    DropStrategy::Newest => f.id <= e.id,
                }
        }
}

/// The same for whatever task gives way.
pub proof fn lemma_spares<T>(
    s: StateView<T>,
    limits: Limits,
    t: u64,
    task: Task<T>,
    strategy: DropStrategy,
    quantum: int,
    now: Instant,
)
    requires
        s.inv(),
        1 <= quantum <= i64::MAX,
    ensures
        spares(
            s,
            s.enqueue_drop(limits, t, task, strategy, quantum, now).0,
            t,
            task.priority.rank(),
            strategy,
            now,
        ),
{
    let after = s.enqueue_drop(limits, t, task, strategy, quantum, now).0;
    assert forall|u: u64, l: int, e: QueueEntry<T>| #[trigger]
        lives(s, u, l, e, now) && !after.books.pending.contains(e.id) implies {
        &&& u == t
        &&& l >= task.priority.rank()
        &&& forall|m: int, f: QueueEntry<T>| l < m ==> !#[trigger] lives(s, t, m, f, now)
        &&& forall|f: QueueEntry<T>| #[trigger]
            lives(s, t, l, f, now) ==> match strategy {
                DropStrategy::Oldest => e.id <= f.id,
                DropStrategy::Newest => f.id <= e.id,
            }
    } by {
        law_the_least_urgent_gives_way(s, limits, t, task, strategy, quantum, now, u, l, e);
    }
}

/// A new task in the place of another leaves as many.
proof fn lemma_swap_len<T>(s: StateView<T>, t: u64, task: Task<T>, l: int, p: int)
    requires
        s.inv(),
        s.knows(t),
        0 <= l < LANES,
        0 <= p < s.tenant(t).lanes[l].queue.len(),
        s.books.last_id < u64::MAX,
    ensures
        ({
            let after = s.without_victim(t, l, p).accepted(t, task, false);
            &&& after.tenant(t).total_len() == s.tenant(t).total_len()
            &&& after.books.stats.queue_len_estimate == s.books.stats.queue_len_estimate
        }),
{
    invariants::lemma_shard_index(s, t);
    assert(s.shards[s.shard_index(t)].tenant_inv(t, s.books.home));
    let lighter = s.without_victim(t, l, p);
    let m = task.priority.rank();
    let after = lighter.accepted(t, task, false);
    assert(lighter.tenant(t).lanes[l].queue.len() == s.tenant(t).lanes[l].queue.len() - 1);
    lemma_accepted_is_last(lighter, t, task, false);
    assert(after.tenant(t).lanes[m].queue.len() == lighter.tenant(t).lanes[m].queue.len() + 1);
}

/// When the policies that give up tasks accept: an open scheduler that has numbers left
/// turns a task away only if a limit is hit and the tenant has no live task that is as
/// urgent as the new one or less. The reason is the tenant's limit if that is hit, and the
/// global one if not.
pub proof fn law_giving_up_makes_room<T>(
    s: StateView<T>,
    limits: Limits,
    t: u64,
    task: Task<T>,
    strategy: DropStrategy,
    quantum: int,
    now: Instant,
)
    requires
        s.inv(),
        1 <= quantum <= i64::MAX,
        s.shutdown == ShutdownState::Open,
        s.books.last_id < u64::MAX,
    ensures
        ({
            let (after, r) = s.enqueue_drop(limits, t, task, strategy, quantum, now);
            &&& r is Enqueued || r is Rejected
            &&& forall|l: int, e: QueueEntry<T>|
                l >= task.priority.rank() && #[trigger] lives(s, t, l, e, now) ==> r is Enqueued
            &&& r matches EnqueueWithHandleResult::Rejected(reason) ==> {
                &&& at_limit(after, limits, t)
                &&& reason == if after.tenant(t).total_len() >= limits.max_per_tenant {
                    EnqueueRejectReason::TenantFull
                } else {
                    EnqueueRejectReason::GlobalFull
                }
            }
        }),
{
    history::lemma_prepared_lanes(s, limits, t, quantum, now);
    let state = s.prepared(limits, t, quantum, now);
    let tenant = state.tenant(t);
    let r = s.enqueue_drop(limits, t, task, strategy, quantum, now).1;
    assert forall|l: int, e: QueueEntry<T>|
        l >= task.priority.rank() && #[trigger] lives(s, t, l, e, now) implies r is Enqueued by {
        lemma_prepared_keeps(s, limits, t, quantum, now, t, l, e);
        assert(tenant.lanes[l].queue.contains(e));
        assert(tenant.lanes[l].queue.len() > 0);
    }
}

/// Why tasks are turned away: a limit is hit after all stale entries of the tenant are
/// gone, the tenant's first, and otherwise a task is accepted.
pub proof fn law_refusals_have_their_reason<T>(
    s: StateView<T>,
    limits: Limits,
    t: u64,
    task: Task<T>,
    quantum: int,
    now: Instant,
)
    requires
        s.inv(),
        1 <= quantum <= i64::MAX,
        s.shutdown == ShutdownState::Open,
        s.books.last_id < u64::MAX,
    ensures
        ({
            let (after, r) = s.enqueue_reject(limits, t, task, quantum, now);
            match r {
                EnqueueWithHandleResult::Enqueued(handle) => handle.0 == s.books.last_id + 1
                    && after.tenant(t).total_len() <= limits.max_per_tenant
                    && after.books.stats.queue_len_estimate <= limits.max_global,
                EnqueueWithHandleResult::Rejected(reason) => {
                    &&& at_limit(after, limits, t)
                    &&& reason == if after.tenant(t).total_len() >= limits.max_per_tenant {
                        EnqueueRejectReason::TenantFull
                    } else {
                        EnqueueRejectReason::GlobalFull
                    }
                    &&& forall|l: int, e: QueueEntry<T>| #[trigger]
                        sits(after, t, l, e) ==> lives(after, t, l, e, now)
                },
                EnqueueWithHandleResult::Closed => false,
            }
        }),
{
    history::lemma_prepared_lanes(s, limits, t, quantum, now);
    invariants::lemma_prepared(s, limits, t, quantum, now);
    let state = s.prepared(limits, t, quantum, now);
    let (after, r) = s.enqueue_reject(limits, t, task, quantum, now);
    invariants::lemma_shard_index(state, t);
    if r is Enqueued {
        lemma_accepted_is_last(state, t, task, true);
        let m = task.priority.rank();
        assert(after.tenant(t).lanes[m].queue.len() == state.tenant(t).lanes[m].queue.len() + 1);
    } else {
        assert forall|l: int, e: QueueEntry<T>| #[trigger] sits(after, t, l, e) implies lives(
            after,
            t,
            l,
            e,
            now,
        ) by {
            let queue = state.tenant(t).lanes[l].queue;
            let p = choose|p: int| 0 <= p < queue.len() && queue[p] == e;
            assert(!state.books.stale(queue[p], now));
        }
    }
}

/// Who waits for room. A task that finds a limit hit is turned away, for want of time, once
/// the deadline has come, and not before; until then it is given back with the time that
/// is left.
pub proof fn law_waiting_ends_with_the_time<T>(
    s: StateView<T>,
    limits: Limits,
    t: u64,
    task: Task<T>,
    quantum: int,
    now: Instant,
    deadline: Instant,
)
    requires
        s.inv(),
        1 <= quantum <= i64::MAX,
    ensures
        ({
            let (after, r) = s.timed_enqueue(limits, t, task, quantum, now, deadline);
            let (_, plain) = s.enqueue_reject(limits, t, task, quantum, now);
            match plain {
                EnqueueWithHandleResult::Rejected(_) => if now.nanos >= deadline.nanos {
                    r == model::TimedAttempt::<T>::Done(
                        EnqueueWithHandleResult::Rejected(EnqueueRejectReason::Timeout),
                    )
                } else {
                    r matches model::TimedAttempt::Wait(back, left) && back == task && (
                    deadline.nanos - now.nanos <= i128::MAX ==> now.nanos + left.nanos
                        == deadline.nanos)
                },
                other => r == model::TimedAttempt::<T>::Done(other),
            }
        }),
{
}

/// An attempt to dequeue takes nothing but what it hands out and what is stale.
pub proof fn law_dequeuing_takes_one_task<T>(
    s: StateView<T>,
    now: Instant,
    u: u64,
    l: int,
    e: QueueEntry<T>,
)
    requires
        s.inv(),
        lives(s, u, l, e, now),
    ensures
        s.dequeue(now).1 == Some((u, e)) || lives(s.dequeue(now).0, u, l, e, now),
{
    delivery::lemma_dequeue_outcome(s, now);
    invariants::lemma_dequeue(s, now);
    invariants::lemma_shard_index(s, u);
    let (s1, found) = s.dequeue(now);
    let i = s.shard_index(u);
    let queue = s.tenant(u).lanes[l].queue;
    let after = s1.tenant(u).lanes[l].queue;
    let p = choose|p: int| 0 <= p < queue.len() && queue[p] == e;
    assert(!s.books.stale(queue[p], now));
    match found {
        Some((t, entry)) if t == u && entry.task.priority.rank() == l => {
            let q = choose|q: int| #[trigger]
                delivery::taken(queue, after, s.books, entry, now, q);
            if p > q {
                assert(after[p - q - 1] == e);
                assert(after.contains(e));
            }
        },
        _ => {
            assert(s1.shards[i] == s1.shards[s.shard_index(u)]);
            assert(delivery::trimmed(queue, s1.shards[i].tenants[u].lanes[l].queue, s.books, now));
            let k = choose|k: int| #[trigger] delivery::cut(queue, after, s.books, now, k);
            assert(after[p - k] == e);
            assert(after.contains(e));
        },
    }
}

/// No operation loses a live task: it stays where it is, unless it is handed out, cancelled,
/// or given up for another of its tenant.
pub proof fn law_live_tasks_are_not_lost<T>(
    s: StateView<T>,
    limits: Limits,
    step: Step<T>,
    u: u64,
    l: int,
    e: QueueEntry<T>,
)
    requires
        s.inv(),
        laws::valid(step),
        sits(s, u, l, e),
        !s.books.cancelled.contains(e.id),
    ensures
        ({
            let after = laws::apply(s, limits, step);
            let stays = sits(after, u, l, e) && !after.books.cancelled.contains(e.id);
            match step {
                Step::Dequeue { now } => !e.task.expired(now) ==> stays || s.dequeue(now).1
                    == Some((u, e)),
                Step::Attempt { now, .. } => !e.task.expired(now) ==> stays,
                Step::EnqueueReject { now, .. } => !e.task.expired(now) ==> stays,
                Step::EnqueueDrop { tenant, now, .. } => !e.task.expired(now) ==> stays || u
                    == tenant && !after.books.pending.contains(e.id),
                Step::Cancel { id } => stays || id == e.id,
                _ => stays,
            }
        }),
{
    reveal(laws::apply);
    invariants::lemma_shard_index(s, u);
    match step {
        Step::Dequeue { now } => {
            if !e.task.expired(now) {
                law_dequeuing_takes_one_task(s, now, u, l, e);
            }
        },
        Step::Attempt { tenant, task, quantum, now } => {
            if !e.task.expired(now) {
                law_refusing_takes_nothing_away(s, limits, tenant, task, quantum, now, u, l, e);
            }
        },
        Step::EnqueueReject { tenant, task, quantum, now } => {
            if !e.task.expired(now) {
                law_refusing_takes_nothing_away(s, limits, tenant, task, quantum, now, u, l, e);
            }
        },
        Step::EnqueueDrop { tenant, task, strategy, quantum, now } => {
            if !e.task.expired(now) {
                lemma_drop_keeps(s, limits, tenant, task, strategy, quantum, now, u, l, e);
            }
        },
        Step::Fix { tenant, quantum } => {
            invariants::lemma_shard_index(s, tenant);
        },
        Step::Grant { tenant, quantum } => {
            invariants::lemma_shard_index(s, tenant);
        },
        _ => {},
    }
}

/// An enqueue that may give up a task takes no other.
proof fn lemma_drop_keeps<T>(
    s: StateView<T>,
    limits: Limits,
    t: u64,
    task: Task<T>,
    strategy: DropStrategy,
    quantum: int,
    now: Instant,
    u: u64,
    l: int,
    e: QueueEntry<T>,
)
    requires
        s.inv(),
        1 <= quantum <= i64::MAX,
        lives(s, u, l, e, now),
    ensures
        ({
            let after = s.enqueue_drop(limits, t, task, strategy, quantum, now).0;
            lives(after, u, l, e, now) || u == t && !after.books.pending.contains(e.id)
        }),
{
    if s.shutdown == ShutdownState::Open {
        history::lemma_prepared_lanes(s, limits, t, quantum, now);
        lemma_prepared_keeps(s, limits, t, quantum, now, u, l, e);
        let state = s.prepared(limits, t, quantum, now);
        let tenant = state.tenant(t);
        let rank = task.priority.rank();
        lemma_accepted_keeps(state, t, task, true, u, l, e);
        lemma_sitting_is_known(state, u, l, e);
        if tenant.victim_lane(rank) is Some {
            let v = tenant.victim_lane(rank)->0;
            let p = tenant.victim_position(v, strategy);
            let lost = tenant.lanes[v].queue[p];
            assert(tenant.lanes[v].queue.contains(lost));
            assert(sits(state, t, v, lost));
            let lighter = state.without_victim(t, v, p);
            invariants::lemma_shard_index(state, t);
            if e.id == lost.id {
                lemma_same_number(state, u, l, e, t, v, lost);
            } else {
                lemma_victim_keeps(state, t, v, p, u, l, e);
                lemma_accepted_keeps(lighter, t, task, false, u, l, e);
            }
        }
    }
}

} // verus!
