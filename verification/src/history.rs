//! Where the tasks in the queues come from.
use vstd::prelude::*;

use crate::api::{
    DequeueResult, EnqueueWithHandleResult, QuantumProvider, Task, TaskHandle, TenantKey,
};
use crate::delivery;
use crate::invariants;
use crate::laws;
use crate::laws::Step;
use crate::model;
use crate::model::{
    BooksView, EnqueueAttempt, Limits, QueueEntry, ShutdownState, StateView, TenantView, LANES,
};
use crate::scheduler::Scheduler;
use crate::time::Instant;

verus! {

/// The operation, done in this state, accepted the task of the tenant under the number.
pub open spec fn accepts<T>(
    s: StateView<T>,
    limits: Limits,
    step: Step<T>,
    id: u64,
    t: u64,
    task: Task<T>,
) -> bool {
    match step {
        Step::Attempt { tenant, task: offered, quantum, now } => tenant == t && offered == task
            && s.try_enqueue(limits, t, task, quantum, now).1 == EnqueueAttempt::<T>::Enqueued(
            TaskHandle(id),
        ),
        Step::EnqueueReject { tenant, task: offered, quantum, now } => tenant == t && offered
            == task && s.enqueue_reject(limits, t, task, quantum, now).1
            == EnqueueWithHandleResult::Enqueued(TaskHandle(id)),
        Step::EnqueueDrop { tenant, task: offered, strategy, quantum, now } => tenant == t
            && offered == task && s.enqueue_drop(limits, t, task, strategy, quantum, now).1
            == EnqueueWithHandleResult::Enqueued(TaskHandle(id)),
        _ => false,
    }
}

/// The operation at place `k` accepted the task of the tenant under the number.
pub open spec fn accepted_at<T>(
    start: StateView<T>,
    limits: Limits,
    steps: Seq<Step<T>>,
    k: int,
    id: u64,
    t: u64,
    task: Task<T>,
) -> bool {
    &&& 0 <= k < steps.len()
    &&& accepts(laws::run(start, limits, steps.take(k)), limits, steps[k], id, t, task)
}

/// The entry is in the tenant's lane.
pub open spec fn sits<T>(s: StateView<T>, t: u64, l: int, e: QueueEntry<T>) -> bool {
    &&& s.knows(t)
    &&& 0 <= l < LANES
    &&& s.tenant(t).lanes[l].queue.contains(e)
}

/// All entries of the one queue are in the other.
spec fn drawn<T>(after: Seq<QueueEntry<T>>, queue: Seq<QueueEntry<T>>) -> bool {
    forall|e: QueueEntry<T>| #[trigger] after.contains(e) ==> queue.contains(e)
}

/// Compaction adds nothing.
proof fn lemma_purge_drawn<T>(b: BooksView<T>, queue: Seq<QueueEntry<T>>, now: Instant)
    ensures
        drawn(model::purge(b, queue, now).1, queue),
    decreases queue.len(),
{
    if queue.len() > 0 {
        let rest = queue.drop_last();
        lemma_purge_drawn(b, rest, now);
        let kept = model::purge(b, rest, now).1;
        assert forall|e: QueueEntry<T>| #[trigger]
            model::purge(b, queue, now).1.contains(e) implies queue.contains(e) by {
            let after = model::purge(b, queue, now).1;
            let p = choose|p: int| 0 <= p < after.len() && after[p] == e;
            if p < kept.len() {
                assert(kept[p] == e);
                assert(kept.contains(e));
                let q = choose|q: int| 0 <= q < rest.len() && rest[q] == e;
                assert(queue[q] == e);
            } else {
                assert(queue[queue.len() - 1] == e);
            }
        }
    }
}

/// Compaction of lanes adds nothing.
proof fn lemma_purged_drawn<T>(tenant: TenantView<T>, b: BooksView<T>, n: nat, now: Instant)
    requires
        tenant.lanes.len() == LANES,
        n <= LANES,
    ensures
        tenant.purged(b, n, now).1.lanes.len() == LANES,
        forall|l: int|
            0 <= l < LANES ==> drawn(
                (#[trigger] tenant.purged(b, n, now).1.lanes[l]).queue,
                tenant.lanes[l].queue,
            ),
    decreases n,
{
    if n > 0 {
        lemma_purged_drawn(tenant, b, (n - 1) as nat, now);
        let (b1, tenant1) = tenant.purged(b, (n - 1) as nat, now);
        let m = n - 1;
        lemma_purge_drawn(b1, tenant1.lanes[m].queue, now);
        let after = tenant.purged(b, n, now).1;
        assert forall|l: int| 0 <= l < LANES implies drawn(
            (#[trigger] after.lanes[l]).queue,
            tenant.lanes[l].queue,
        ) by {
            let _ = tenant1.lanes[l];
        }
    }
}

/// Making a tenant known and tidying it adds nothing to the queues.
pub proof fn lemma_prepared_sits<T>(
    s: StateView<T>,
    limits: Limits,
    t: u64,
    quantum: int,
    now: Instant,
    u: u64,
    l: int,
    e: QueueEntry<T>,
)
    requires
        s.inv(),
        1 <= quantum <= i64::MAX,
        sits(s.prepared(limits, t, quantum, now), u, l, e),
    ensures
        sits(s, u, l, e),
{
    let i = s.shard_index(t);
    invariants::lemma_shard_index(s, t);
    invariants::lemma_shard_index(s, u);
    let n = s.shards.len();
    invariants::lemma_tenant_or_fresh(s.shards[i], s.books.home, i, n, t, quantum);
    let before = s.shards[i].tenant_or_fresh(t, quantum);
    let counted = TenantView { since_purge: before.since_purge + 1, ..before };
    lemma_purged_drawn(before, s.books, LANES as nat, now);
    lemma_purged_drawn(counted, s.books, LANES as nat, now);
    if u == t {
        let after = before.tidied(s.books, limits, now).1;
        assert(s.prepared(limits, t, quantum, now).tenant(t) == after);
        assert(after.lanes[l].queue.contains(e));
        let _ = before.purged(s.books, LANES as nat, now).1.lanes[l];
        let _ = counted.purged(s.books, LANES as nat, now).1.lanes[l];
        assert(before.lanes[l].queue.contains(e));
    }
}

/// Accepting a task adds one entry.
proof fn lemma_accepted_sits<T>(
    s: StateView<T>,
    t: u64,
    task: Task<T>,
    own_slot: bool,
    u: u64,
    l: int,
    e: QueueEntry<T>,
)
    requires
        s.shards.len() >= 1,
        s.knows(t),
        s.tenant(t).lanes.len() == LANES,
        sits(s.accepted(t, task, own_slot), u, l, e),
    ensures
        sits(s, u, l, e) || (u == t && e.task == task && e.id == (s.books.last_id + 1) as u64),
{
    invariants::lemma_shard_index(s, t);
    invariants::lemma_shard_index(s, u);
    if u == t {
        let after = s.accepted(t, task, own_slot).tenant(t).lanes[l].queue;
        let queue = s.tenant(t).lanes[l].queue;
        let p = choose|p: int| 0 <= p < after.len() && after[p] == e;
        if p < queue.len() {
            assert(queue[p] == e);
        }
    }
}

/// Giving up a task adds nothing to the queues.
proof fn lemma_victim_sits<T>(
    s: StateView<T>,
    t: u64,
    v: int,
    p: int,
    u: u64,
    l: int,
    e: QueueEntry<T>,
)
    requires
        s.shards.len() >= 1,
        s.knows(t),
        s.tenant(t).lanes.len() == LANES,
        0 <= v < LANES,
        0 <= p < s.tenant(t).lanes[v].queue.len(),
        sits(s.without_victim(t, v, p), u, l, e),
    ensures
        sits(s, u, l, e),
{
    invariants::lemma_shard_index(s, t);
    invariants::lemma_shard_index(s, u);
    if u == t {
        let after = s.without_victim(t, v, p).tenant(t).lanes[l].queue;
        let queue = s.tenant(t).lanes[l].queue;
        let q = choose|q: int| 0 <= q < after.len() && after[q] == e;
        if l == v && q >= p {
            assert(queue[q + 1] == e);
        } else {
            assert(queue[q] == e);
        }
    }
}

/// The tenant that was made known has all its lanes.
pub proof fn lemma_prepared_lanes<T>(
    s: StateView<T>,
    limits: Limits,
    t: u64,
    quantum: int,
    now: Instant,
)
    requires
        s.inv(),
        1 <= quantum <= i64::MAX,
    ensures
        s.prepared(limits, t, quantum, now).inv(),
        s.prepared(limits, t, quantum, now).knows(t),
        s.prepared(limits, t, quantum, now).tenant(t).lanes.len() == LANES,
        s.prepared(limits, t, quantum, now).books.last_id == s.books.last_id,
{
    invariants::lemma_prepared(s, limits, t, quantum, now);
    let state = s.prepared(limits, t, quantum, now);
    invariants::lemma_shard_index(state, t);
    assert(state.shards[state.shard_index(t)].tenant_inv(t, state.books.home));
}

/// An attempt to enqueue adds nothing but what it accepts.
proof fn lemma_attempt_sits<T>(
    s: StateView<T>,
    limits: Limits,
    t: u64,
    task: Task<T>,
    quantum: int,
    now: Instant,
    u: u64,
    l: int,
    e: QueueEntry<T>,
)
    requires
        s.inv(),
        1 <= quantum <= i64::MAX,
        sits(s.try_enqueue(limits, t, task, quantum, now).0, u, l, e),
    ensures
        sits(s, u, l, e) || (u == t && e.task == task && s.try_enqueue(
            limits,
            t,
            task,
            quantum,
            now,
        ).1 == EnqueueAttempt::<T>::Enqueued(TaskHandle(e.id))),
{
    if s.shutdown == ShutdownState::Open {
        lemma_prepared_lanes(s, limits, t, quantum, now);
        let state = s.prepared(limits, t, quantum, now);
        if state.tenant(t).full(limits) || state.books.global_full(limits) {
            lemma_prepared_sits(s, limits, t, quantum, now, u, l, e);
        } else {
            lemma_accepted_sits(state, t, task, true, u, l, e);
            if sits(state, u, l, e) {
                lemma_prepared_sits(s, limits, t, quantum, now, u, l, e);
            }
        }
    }
}

/// An enqueue that gives up tasks adds nothing but what it accepts.
proof fn lemma_drop_sits<T>(
    s: StateView<T>,
    limits: Limits,
    t: u64,
    task: Task<T>,
    strategy: model::DropStrategy,
    quantum: int,
    now: Instant,
    u: u64,
    l: int,
    e: QueueEntry<T>,
)
    requires
        s.inv(),
        1 <= quantum <= i64::MAX,
        sits(s.enqueue_drop(limits, t, task, strategy, quantum, now).0, u, l, e),
    ensures
        sits(s, u, l, e) || (u == t && e.task == task && s.enqueue_drop(
            limits,
            t,
            task,
            strategy,
            quantum,
            now,
        ).1 == EnqueueWithHandleResult::Enqueued(TaskHandle(e.id))),
{
    if s.shutdown == ShutdownState::Open {
        lemma_prepared_lanes(s, limits, t, quantum, now);
        let state = s.prepared(limits, t, quantum, now);
        let tenant = state.tenant(t);
        let lane = tenant.victim_lane(task.priority.rank());
        if !tenant.full(limits) && !state.books.global_full(limits) {
            lemma_accepted_sits(state, t, task, true, u, l, e);
        } else if lane is Some && state.books.last_id < u64::MAX {
            let v = lane->0;
            let p = tenant.victim_position(v, strategy);
            let lighter = state.without_victim(t, v, p);
            invariants::lemma_shard_index(state, t);
            lemma_accepted_sits(lighter, t, task, false, u, l, e);
            if sits(lighter, u, l, e) {
                lemma_victim_sits(state, t, v, p, u, l, e);
            }
        }
        if sits(state, u, l, e) {
            lemma_prepared_sits(s, limits, t, quantum, now, u, l, e);
        }
    }
}

/// An attempt to dequeue adds nothing to the queues.
proof fn lemma_dequeue_sits<T>(s: StateView<T>, now: Instant, u: u64, l: int, e: QueueEntry<T>)
    requires
        s.inv(),
        sits(s.dequeue(now).0, u, l, e),
    ensures
        sits(s, u, l, e),
{
    delivery::lemma_dequeue_outcome(s, now);
    let (after, found) = s.dequeue(now);
    let i = s.shard_index(u);
    invariants::lemma_shard_index(s, u);
    let queue = s.shards[i].tenants[u].lanes[l].queue;
    let left = after.shards[i].tenants[u].lanes[l].queue;
    let q = choose|q: int| 0 <= q < left.len() && left[q] == e;
    let mine = match found {
        Some((t, entry)) => t == u && entry.task.priority.rank() == l,
        None => false,
    };
    if mine {
        let (_, entry) = found->0;
        let p = choose|p: int| #[trigger]
            delivery::taken(queue, left, s.books, entry, now, p);
        assert(delivery::taken(queue, left, s.books, entry, now, p));
        assert(queue[p + 1 + q] == e);
    } else {
        assert(delivery::trimmed(queue, left, s.books, now)) by {
            let _ = after.shards[i].tenants[u].lanes[l];
        }
        let k = choose|k: int| #[trigger] delivery::cut(queue, left, s.books, now, k);
        assert(delivery::cut(queue, left, s.books, now, k));
        assert(queue[k + q] == e);
    }
}

/// An operation adds nothing to the queues but what it accepts.
proof fn lemma_step_sits<T>(
    s: StateView<T>,
    limits: Limits,
    step: Step<T>,
    u: u64,
    l: int,
    e: QueueEntry<T>,
)
    requires
        s.inv(),
        laws::valid(step),
        sits(laws::apply(s, limits, step), u, l, e),
    ensures
        sits(s, u, l, e) || accepts(s, limits, step, e.id, u, e.task),
{
    reveal(laws::apply);
    match step {
        Step::Dequeue { now } => {
            lemma_dequeue_sits(s, now, u, l, e);
        },
        Step::Attempt { tenant, task, quantum, now } => {
            lemma_attempt_sits(s, limits, tenant, task, quantum, now, u, l, e);
        },
        Step::EnqueueReject { tenant, task, quantum, now } => {
            lemma_attempt_sits(s, limits, tenant, task, quantum, now, u, l, e);
        },
        Step::EnqueueDrop { tenant, task, strategy, quantum, now } => {
            lemma_drop_sits(s, limits, tenant, task, strategy, quantum, now, u, l, e);
        },
        Step::Fix { tenant, .. } => {
            lemma_quantum_sits(s, tenant, u);
        },
        Step::Grant { tenant, .. } => {
            lemma_quantum_sits(s, tenant, u);
        },
        _ => {},
    }
}

/// The shards of two tenants are shards.
proof fn lemma_quantum_sits<T>(s: StateView<T>, t: u64, u: u64)
    requires
        s.inv(),
    ensures
        0 <= s.shard_index(t) < s.shards.len(),
        0 <= s.shard_index(u) < s.shards.len(),
{
    invariants::lemma_shard_index(s, t);
    invariants::lemma_shard_index(s, u);
}

/// What is accepted has the last number.
proof fn lemma_accepts_number<T>(
    s: StateView<T>,
    limits: Limits,
    step: Step<T>,
    id: u64,
    t: u64,
    task: Task<T>,
)
    requires
        s.inv(),
        laws::valid(step),
        accepts(s, limits, step, id, t, task),
    ensures
        laws::apply(s, limits, step).books.last_id == id,
        s.books.last_id < id,
{
    reveal(laws::apply);
    match step {
        Step::Attempt { tenant, task, quantum, now } => {
            lemma_prepared_lanes(s, limits, tenant, quantum, now);
        },
        Step::EnqueueReject { tenant, task, quantum, now } => {
            lemma_prepared_lanes(s, limits, tenant, quantum, now);
        },
        Step::EnqueueDrop { tenant, task, quantum, now, .. } => {
            lemma_prepared_lanes(s, limits, tenant, quantum, now);
        },
        _ => {},
    }
}

/// Parts of valid steps are valid.
proof fn lemma_part_valid<T>(steps: Seq<Step<T>>, j: int)
    requires
        laws::all_valid(steps),
        0 <= j <= steps.len(),
    ensures
        laws::all_valid(steps.take(j)),
        laws::all_valid(steps.skip(j)),
{
    assert forall|k: int| 0 <= k < steps.take(j).len() implies laws::valid(
        #[trigger] steps.take(j)[k],
    ) by {
        assert(laws::valid(steps[k]));
    }
    assert forall|k: int| 0 <= k < steps.skip(j).len() implies laws::valid(
        #[trigger] steps.skip(j)[k],
    ) by {
        assert(laws::valid(steps[j + k]));
    }
}

/// Operations can be done in two parts.
proof fn lemma_run_parts<T>(start: StateView<T>, limits: Limits, steps: Seq<Step<T>>, j: int)
    requires
        0 <= j <= steps.len(),
    ensures
        laws::run(start, limits, steps) == laws::run(
            laws::run(start, limits, steps.take(j)),
            limits,
            steps.skip(j),
        ),
    decreases steps.len(),
{
    if j == steps.len() {
        assert(steps.take(j) =~= steps);
        assert(steps.skip(j) =~= Seq::empty());
    } else {
        let before = steps.drop_last();
        lemma_run_parts(start, limits, before, j);
        assert(before.take(j) =~= steps.take(j));
        assert(before.skip(j) =~= steps.skip(j).drop_last());
        assert(steps.skip(j).last() == steps.last());
    }
}

/// Whatever sits in a queue was accepted.
proof fn lemma_traced<T>(
    shards: nat,
    capacity: nat,
    quanta: Map<u64, u64>,
    provider: Option<QuantumProvider>,
    limits: Limits,
    steps: Seq<Step<T>>,
    u: u64,
    l: int,
    e: QueueEntry<T>,
) -> (k: int)
    requires
        1 <= shards <= usize::MAX,
        laws::all_valid(steps),
        ({
            let start = StateView::<T>::initial(shards, capacity, quanta, provider);
            sits(laws::run(start, limits, steps), u, l, e)
        }),
    ensures
        ({
            let start = StateView::<T>::initial(shards, capacity, quanta, provider);
            accepted_at(start, limits, steps, k, e.id, u, e.task)
        }),
    decreases steps.len(),
{
    let start = StateView::<T>::initial(shards, capacity, quanta, provider);
    if steps.len() == 0 {
        invariants::lemma_shard_index(start, u);
        assert(!start.knows(u));
        0
    } else {
        let n = steps.len() - 1;
        let before = steps.drop_last();
        lemma_part_valid(steps, n);
        assert(steps.take(n) =~= before);
        assert(laws::valid(steps[n]));
        let s = laws::run(start, limits, before);
        laws::law_every_state_is_in_order(shards, capacity, quanta, provider, limits, before);
        lemma_step_sits(s, limits, steps.last(), u, l, e);
        if accepts(s, limits, steps.last(), e.id, u, e.task) {
            n
        } else {
            let k = lemma_traced(
                shards,
                capacity,
                quanta,
                provider,
                limits,
                before,
                u,
                l,
                e,
            );
            assert(before.take(k) =~= steps.take(k));
            k
        }
    }
}

/// A task that is handed out is one that an earlier enqueue of that tenant accepted,
/// with every field as it was, and it was pending ever since: no attempt handed it out
/// before, nobody cancelled it, and it was not given up for another.
pub proof fn law_handed_out_tasks_were_accepted<T>(
    shards: nat,
    capacity: nat,
    quanta: Map<u64, u64>,
    provider: Option<QuantumProvider>,
    limits: Limits,
    steps: Seq<Step<T>>,
    now: Instant,
)
    requires
        1 <= shards <= usize::MAX,
        laws::all_valid(steps),
    ensures
        ({
            let start = StateView::<T>::initial(shards, capacity, quanta, provider);
            laws::run(start, limits, steps).dequeue(now).1 matches Some((t, entry)) ==> exists|
                k: int,
            | #[trigger]
                accepted_at(start, limits, steps, k, entry.id, t, entry.task) && forall|j: int|
                    k < j <= steps.len() ==> (#[trigger] laws::run(
                        start,
                        limits,
                        steps.take(j),
                    )).books.pending.contains(entry.id)
        }),
{
    let start = StateView::<T>::initial(shards, capacity, quanta, provider);
    let s = laws::run(start, limits, steps);
    laws::law_every_state_is_in_order(shards, capacity, quanta, provider, limits, steps);
    laws::law_handed_out_tasks_are_live(s, now);
    laws::law_first_in_first_out(s, now);
    if let Some((t, entry)) = s.dequeue(now).1 {
        let l = entry.task.priority.rank();
        let queue = s.tenant(t).lanes[l].queue;
        let p = choose|p: int| 0 <= p < queue.len() && #[trigger] queue[p] == entry;
        assert(queue.contains(entry));
        let k = lemma_traced(
            shards,
            capacity,
            quanta,
            provider,
            limits,
            steps,
            t,
            l,
            entry,
        );
        assert forall|j: int| k < j <= steps.len() implies (#[trigger] laws::run(
            start,
            limits,
            steps.take(j),
        )).books.pending.contains(entry.id) by {
            lemma_still_pending(
                shards,
                capacity,
                quanta,
                provider,
                limits,
                steps,
                k,
                j,
                entry.id,
                t,
                entry.task,
            );
        }
        assert(accepted_at(start, limits, steps, k, entry.id, t, entry.task));
    }
}

/// No number is given twice: a task is accepted by one operation only.
pub proof fn law_accepted_once<T>(
    shards: nat,
    capacity: nat,
    quanta: Map<u64, u64>,
    provider: Option<QuantumProvider>,
    limits: Limits,
    steps: Seq<Step<T>>,
    j: int,
    k: int,
    id: u64,
    t: u64,
    task: Task<T>,
    u: u64,
    other: Task<T>,
)
    requires
        1 <= shards <= usize::MAX,
        laws::all_valid(steps),
        ({
            let start = StateView::<T>::initial(shards, capacity, quanta, provider);
            &&& accepted_at(start, limits, steps, j, id, t, task)
            &&& accepted_at(start, limits, steps, k, id, u, other)
        }),
    ensures
        j == k,
        t == u,
        task == other,
{
    if j < k {
        lemma_not_again(shards, capacity, quanta, provider, limits, steps, j, k, id, t, task, u, other);
    }
    if k < j {
        lemma_not_again(shards, capacity, quanta, provider, limits, steps, k, j, id, u, other, t, task);
    }
}

/// A later operation gives another number.
proof fn lemma_not_again<T>(
    shards: nat,
    capacity: nat,
    quanta: Map<u64, u64>,
    provider: Option<QuantumProvider>,
    limits: Limits,
    steps: Seq<Step<T>>,
    j: int,
    k: int,
    id: u64,
    t: u64,
    task: Task<T>,
    u: u64,
    other: Task<T>,
)
    requires
        1 <= shards <= usize::MAX,
        laws::all_valid(steps),
        0 <= j < k < steps.len(),
        accepted_at(
            StateView::<T>::initial(shards, capacity, quanta, provider),
            limits,
            steps,
            j,
            id,
            t,
            task,
        ),
    ensures
        !accepted_at(
            StateView::<T>::initial(shards, capacity, quanta, provider),
            limits,
            steps,
            k,
            id,
            u,
            other,
        ),
{
    let start = StateView::<T>::initial(shards, capacity, quanta, provider);
    if accepted_at(start, limits, steps, k, id, u, other) {
        lemma_part_valid(steps, j);
        lemma_part_valid(steps, k);
        let first = laws::run(start, limits, steps.take(j));
        let second = laws::run(start, limits, steps.take(k));
        laws::law_every_state_is_in_order(
            shards,
            capacity,
            quanta,
            provider,
            limits,
            steps.take(j),
        );
        laws::law_every_state_is_in_order(
            shards,
            capacity,
            quanta,
            provider,
            limits,
            steps.take(k),
        );
        assert(laws::valid(steps[j]));
        assert(laws::valid(steps[k]));
        lemma_accepts_number(first, limits, steps[j], id, t, task);
        lemma_accepts_number(second, limits, steps[k], id, u, other);
        assert(steps.take(j + 1).drop_last() =~= steps.take(j));
        assert(steps.take(j + 1).last() == steps[j]);
        lemma_numbers_grow(shards, capacity, quanta, provider, limits, steps.take(k), j + 1);
        assert(steps.take(k).take(j + 1) =~= steps.take(j + 1));
    }
}

/// Whatever threads have done with a scheduler, a task that it hands out is one that an
/// enqueue of that tenant accepted in a history of the scheduler, with every field as it
/// was.
pub proof fn law_handed_out_tasks_have_a_history<T>(
    scheduler: Scheduler<T>,
    capacity: nat,
    quanta: Map<u64, u64>,
    provider: Option<QuantumProvider>,
    tenant: TenantKey,
    task: Task<T>,
)
    requires
        scheduler.settings().shards >= 1,
        scheduler.start() == StateView::<T>::initial(
            scheduler.settings().shards as nat,
            capacity,
            quanta,
            provider,
        ),
        scheduler.may_dequeue(DequeueResult::Task { tenant, task }),
    ensures
        exists|steps: Seq<Step<T>>, k: int, id: u64|
            laws::all_valid(steps) && #[trigger] accepted_at(
                scheduler.start(),
                scheduler.settings().limits,
                steps,
                k,
                id,
                tenant.0,
                task,
            ) && laws::run(
                scheduler.start(),
                scheduler.settings().limits,
                steps,
            ).books.pending.contains(id),
{
    let limits = scheduler.settings().limits;
    let start = scheduler.start();
    let (pre, now) = choose|pre: StateView<T>, now: Instant|
        scheduler.may_be_in(pre) && DequeueResult::Task { tenant, task } == (#[trigger] pre.dequeue(
            now,
        )).0.answer(pre.dequeue(now).1);
    assert(exists|steps: Seq<Step<T>>|
        laws::all_valid(steps) && pre == #[trigger] laws::run(start, limits, steps)) by {
        reveal(laws::reached);
    }
    let steps = choose|steps: Seq<Step<T>>|
        laws::all_valid(steps) && pre == #[trigger] laws::run(start, limits, steps);
    law_handed_out_tasks_were_accepted(
        scheduler.settings().shards as nat,
        capacity,
        quanta,
        provider,
        limits,
        steps,
        now,
    );
    let (t, entry) = pre.dequeue(now).1->0;
    let k = choose|k: int| #[trigger]
        accepted_at(start, limits, steps, k, entry.id, t, entry.task) && forall|j: int|
            k < j <= steps.len() ==> (#[trigger] laws::run(
                start,
                limits,
                steps.take(j),
            )).books.pending.contains(entry.id);
    assert(steps.take(steps.len() as int) =~= steps);
    assert(laws::run(start, limits, steps.take(steps.len() as int)).books.pending.contains(
        entry.id,
    ));
    assert(accepted_at(start, limits, steps, k, entry.id, tenant.0, task));
}

/// What was accepted and is pending at the end was pending all the time.
proof fn lemma_still_pending<T>(
    shards: nat,
    capacity: nat,
    quanta: Map<u64, u64>,
    provider: Option<QuantumProvider>,
    limits: Limits,
    steps: Seq<Step<T>>,
    k: int,
    j: int,
    id: u64,
    t: u64,
    task: Task<T>,
)
    requires
        1 <= shards <= usize::MAX,
        laws::all_valid(steps),
        0 <= k < j <= steps.len(),
        ({
            let start = StateView::<T>::initial(shards, capacity, quanta, provider);
            &&& accepted_at(start, limits, steps, k, id, t, task)
            &&& laws::run(start, limits, steps).books.pending.contains(id)
        }),
    ensures
        ({
            let start = StateView::<T>::initial(shards, capacity, quanta, provider);
            laws::run(start, limits, steps.take(j)).books.pending.contains(id)
        }),
{
    let start = StateView::<T>::initial(shards, capacity, quanta, provider);
    lemma_part_valid(steps, j);
    lemma_part_valid(steps, k + 1);
    lemma_part_valid(steps, k);
    let first = laws::run(start, limits, steps.take(k));
    laws::law_every_state_is_in_order(
        shards,
        capacity,
        quanta,
        provider,
        limits,
        steps.take(k),
    );
    assert(laws::valid(steps[k]));
    lemma_accepts_number(first, limits, steps[k], id, t, task);
    assert(steps.take(k + 1).drop_last() =~= steps.take(k));
    assert(laws::run(start, limits, steps.take(k + 1)).books.last_id == id);
    lemma_numbers_grow(shards, capacity, quanta, provider, limits, steps.take(j), k + 1);
    assert(steps.take(j).take(k + 1) =~= steps.take(k + 1));
    let s = laws::run(start, limits, steps.take(j));
    laws::law_every_state_is_in_order(
        shards,
        capacity,
        quanta,
        provider,
        limits,
        steps.take(j),
    );
    if !s.books.pending.contains(id) {
        laws::law_what_is_gone_stays_gone(s, limits, steps.skip(j), id);
        lemma_run_parts(start, limits, steps, j);
    }
}

/// The last number never goes down.
proof fn lemma_numbers_grow<T>(
    shards: nat,
    capacity: nat,
    quanta: Map<u64, u64>,
    provider: Option<QuantumProvider>,
    limits: Limits,
    steps: Seq<Step<T>>,
    j: int,
)
    requires
        1 <= shards <= usize::MAX,
        laws::all_valid(steps),
        0 <= j <= steps.len(),
    ensures
        ({
            let start = StateView::<T>::initial(shards, capacity, quanta, provider);
            laws::run(start, limits, steps.take(j)).books.last_id <= laws::run(
                start,
                limits,
                steps,
            ).books.last_id
        }),
    decreases steps.len(),
{
    let start = StateView::<T>::initial(shards, capacity, quanta, provider);
    if j == steps.len() {
        assert(steps.take(j) =~= steps);
    } else {
        let n = steps.len() - 1;
        let before = steps.drop_last();
        lemma_part_valid(steps, n);
        assert(steps.take(n) =~= before);
        assert(laws::valid(steps[n]));
        lemma_numbers_grow(shards, capacity, quanta, provider, limits, before, j);
        assert(before.take(j) =~= steps.take(j));
        laws::law_every_state_is_in_order(shards, capacity, quanta, provider, limits, before);
        laws::law_numbers_are_not_reused(
            laws::run(start, limits, before),
            limits,
            steps.last(),
        );
    }
}

} // verus!
