//! What holds of the scheduler as a whole, whatever is asked of it and in whatever
//! order.
use vstd::prelude::*;

use crate::accounts;
use crate::api::{
    CloseMode, DequeueResult, EnqueueRejectReason, EnqueueWithHandleResult, QuantumProvider,
    QueueTimeBucket, SchedulerStats, Task, TaskHandle,
};
use crate::capacity;
use crate::delivery;
use crate::fairness;
use crate::invariants;
use crate::model;
use crate::model::{
    BooksView, DropStrategy, EnqueueAttempt, Limits, QueueEntry, ShardView, ShutdownState,
    StateView, LANES,
};
use crate::scheduler::Scheduler;
use crate::time::Instant;

verus! {

/// An operation on the scheduler.
pub enum Step<T> {
    /// An attempt to dequeue.
    Dequeue { now: Instant },
    /// An attempt to enqueue that drops nothing and counts nothing.
    Attempt { tenant: u64, task: Task<T>, quantum: int, now: Instant },
    /// An enqueue that turns the task away when a limit is hit.
    EnqueueReject { tenant: u64, task: Task<T>, quantum: int, now: Instant },
    /// An enqueue that gives up a task when a limit is hit.
    EnqueueDrop {
        tenant: u64,
        task: Task<T>,
        strategy: DropStrategy,
        quantum: int,
        now: Instant,
    },
    /// An enqueue turned away because time ran out.
    TimedOut,
    /// A cancellation.
    Cancel { id: u64 },
    /// A request to close.
    Close { mode: CloseMode },
    /// A quantum fixed for a tenant.
    Fix { tenant: u64, quantum: u64 },
    /// A quantum no longer fixed.
    Release { tenant: u64 },
    /// Another quantum granted.
    Grant { tenant: u64, quantum: int },
    /// Another provider of quanta, or none.
    Install { provider: Option<QuantumProvider> },
    /// Waiting threads told.
    Clear,
}

/// Quanta are in range, as all that the scheduler grants are.
pub open spec fn valid<T>(step: Step<T>) -> bool {
    match step {
        Step::Attempt { quantum, .. } => 1 <= quantum <= i64::MAX,
        Step::EnqueueReject { quantum, .. } => 1 <= quantum <= i64::MAX,
        Step::EnqueueDrop { quantum, .. } => 1 <= quantum <= i64::MAX,
        Step::Grant { quantum, .. } => 1 <= quantum <= i64::MAX,
        _ => true,
    }
}

/// The state after an operation.
#[verifier::opaque]
pub open spec fn apply<T>(s: StateView<T>, limits: Limits, step: Step<T>) -> StateView<T> {
    match step {
        Step::Dequeue { now } => s.dequeue(now).0,
        Step::Attempt { tenant, task, quantum, now } => s.try_enqueue(
            limits,
            tenant,
            task,
            quantum,
            now,
        ).0,
        Step::EnqueueReject { tenant, task, quantum, now } => s.enqueue_reject(
            limits,
            tenant,
            task,
            quantum,
            now,
        ).0,
        Step::EnqueueDrop { tenant, task, strategy, quantum, now } => s.enqueue_drop(
            limits,
            tenant,
            task,
            strategy,
            quantum,
            now,
        ).0,
        Step::TimedOut => s.counting_reject(EnqueueRejectReason::Timeout),
        Step::Cancel { id } => s.cancel(id),
        Step::Close { mode } => s.close(mode),
        Step::Fix { tenant, quantum } => s.with_fixed(tenant, quantum).with_quantum(
            tenant,
            model::effective_quantum(Some(quantum), None, 0),
        ),
        Step::Release { tenant } => s.without_fixed(tenant),
        Step::Grant { tenant, quantum } => s.with_quantum(tenant, quantum),
        Step::Install { provider } => s.with_provider(provider),
        Step::Clear => s.cleared(),
    }
}

/// The state after operations, one after the other.
pub open spec fn run<T>(s: StateView<T>, limits: Limits, steps: Seq<Step<T>>) -> StateView<T>
    decreases steps.len(),
{
    if steps.len() == 0 {
        s
    } else {
        apply(run(s, limits, steps.drop_last()), limits, steps.last())
    }
}

/// All steps are valid.
pub open spec fn all_valid<T>(steps: Seq<Step<T>>) -> bool {
    forall|k: int| 0 <= k < steps.len() ==> valid(#[trigger] steps[k])
}

/// Operations lead from the one state to the other.
#[verifier::opaque]
pub open spec fn reached<T>(start: StateView<T>, limits: Limits, s: StateView<T>) -> bool {
    exists|steps: Seq<Step<T>>|
        all_valid(steps) && s == #[trigger] run(start, limits, steps)
}

/// Operations lead from the one state to the other, which is in order and keeps the
/// limits.
pub open spec fn leads_to<T>(s: StateView<T>, limits: Limits, after: StateView<T>) -> bool {
    &&& after.inv()
    &&& after.within(limits)
    &&& after.same_shape(s)
    &&& reached(s, limits, after)
}

/// No operation leads to where one is.
pub proof fn lemma_reached_start<T>(start: StateView<T>, limits: Limits)
    ensures
        reached(start, limits, start),
{
    reveal(reached);
    let none = Seq::<Step<T>>::empty();
    assert(start == run(start, limits, none));
}

/// A further operation leads on.
pub proof fn lemma_reached_next<T>(
    start: StateView<T>,
    limits: Limits,
    s: StateView<T>,
    step: Step<T>,
)
    requires
        reached(start, limits, s),
        valid(step),
    ensures
        reached(start, limits, apply(s, limits, step)),
{
    reveal(reached);
    let steps = choose|steps: Seq<Step<T>>|
        all_valid(steps) && s == #[trigger] run(start, limits, steps);
    let more = steps.push(step);
    assert(more.drop_last() =~= steps);
    assert(apply(s, limits, step) == run(start, limits, more));
}

/// Operations that lead on from where others led.
pub proof fn lemma_reached_further<T>(
    start: StateView<T>,
    limits: Limits,
    s: StateView<T>,
    after: StateView<T>,
)
    requires
        reached(start, limits, s),
        reached(s, limits, after),
    ensures
        reached(start, limits, after),
{
    reveal(reached);
    let steps = choose|steps: Seq<Step<T>>|
        all_valid(steps) && after == #[trigger] run(s, limits, steps);
    lemma_reached_by(start, limits, s, steps);
}

/// Given operations lead on.
proof fn lemma_reached_by<T>(
    start: StateView<T>,
    limits: Limits,
    s: StateView<T>,
    steps: Seq<Step<T>>,
)
    requires
        reached(start, limits, s),
        all_valid(steps),
    ensures
        reached(start, limits, run(s, limits, steps)),
    decreases steps.len(),
{
    if steps.len() > 0 {
        let before = steps.drop_last();
        assert forall|k: int| 0 <= k < before.len() implies valid(#[trigger] before[k]) by {
            assert(valid(steps[k]));
        }
        assert(valid(steps[steps.len() - 1]));
        lemma_reached_by(start, limits, s, before);
        lemma_reached_next(start, limits, run(s, limits, before), steps.last());
    }
}

/// Every operation keeps the scheduler in order, within its limits, and its counters
/// in range.
pub proof fn law_operations_keep_order<T>(s: StateView<T>, limits: Limits, step: Step<T>)
    requires
        s.inv(),
        s.within(limits),
        s.books.counted(),
        valid(step),
    ensures
        apply(s, limits, step).inv(),
        apply(s, limits, step).within(limits),
        apply(s, limits, step).books.counted(),
{
    reveal(apply);
    match step {
        Step::Dequeue { now } => {
            invariants::lemma_dequeue(s, now);
            capacity::lemma_dequeue_within(s, limits, now);
            accounts::lemma_dequeue_balances(s, now);
        },
        Step::Attempt { tenant, task, quantum, now } => {
            invariants::lemma_try_enqueue(s, limits, tenant, task, quantum, now);
            capacity::lemma_try_enqueue_within(s, limits, tenant, task, quantum, now);
            accounts::lemma_try_enqueue_balances(s, limits, tenant, task, quantum, now);
        },
        Step::EnqueueReject { tenant, task, quantum, now } => {
            invariants::lemma_enqueue_reject(s, limits, tenant, task, quantum, now);
            capacity::lemma_enqueue_reject_within(s, limits, tenant, task, quantum, now);
            accounts::lemma_enqueue_reject_balances(s, limits, tenant, task, quantum, now);
        },
        Step::EnqueueDrop { tenant, task, strategy, quantum, now } => {
            invariants::lemma_enqueue_drop(s, limits, tenant, task, strategy, quantum, now);
            capacity::lemma_enqueue_drop_within(s, limits, tenant, task, strategy, quantum, now);
            accounts::lemma_enqueue_drop_balances(s, limits, tenant, task, strategy, quantum, now);
        },
        Step::TimedOut => {
            invariants::lemma_counting_reject(s, EnqueueRejectReason::Timeout);
            capacity::lemma_counting_within(s, EnqueueRejectReason::Timeout, limits);
            accounts::lemma_reject_balances(s, EnqueueRejectReason::Timeout);
        },
        Step::Cancel { id } => {
            invariants::lemma_cancel(s, id);
            capacity::lemma_cancel_within(s, id, limits);
            accounts::lemma_cancel_balances(s, id);
        },
        Step::Close { mode } => {
            invariants::lemma_close(s, mode);
            capacity::lemma_close_within(s, mode, limits);
        },
        Step::Fix { tenant, quantum } => {
            let fixed = s.with_fixed(tenant, quantum);
            let granted = model::effective_quantum(Some(quantum), None, 0);
            invariants::lemma_with_quantum(fixed, tenant, granted);
            capacity::lemma_with_quantum_within(fixed, tenant, granted, limits);
        },
        Step::Grant { tenant, quantum } => {
            invariants::lemma_with_quantum(s, tenant, quantum);
            capacity::lemma_with_quantum_within(s, tenant, quantum, limits);
        },
        Step::Release { .. } => {},
        Step::Install { .. } => {},
        Step::Clear => {},
    }
}

/// In every state that a new scheduler can get into, it is in order and within its
/// limits: never more live tasks than the global capacity, never more entries of a
/// tenant than it may have.
pub proof fn law_every_state_is_in_order<T>(
    shards: nat,
    capacity: nat,
    quanta: Map<u64, u64>,
    provider: Option<QuantumProvider>,
    limits: Limits,
    steps: Seq<Step<T>>,
)
    requires
        1 <= shards <= usize::MAX,
        all_valid(steps),
    ensures
        run(StateView::<T>::initial(shards, capacity, quanta, provider), limits, steps).inv(),
        run(StateView::<T>::initial(shards, capacity, quanta, provider), limits, steps).within(limits),
        run(StateView::<T>::initial(shards, capacity, quanta, provider), limits, steps).books.counted(),
    decreases steps.len(),
{
    let start = StateView::<T>::initial(shards, capacity, quanta, provider);
    if steps.len() == 0 {
        invariants::lemma_initial::<T>(shards, capacity, quanta, provider);
        capacity::lemma_initial_within::<T>(shards, capacity, quanta, provider, limits);
    } else {
        assert forall|k: int| 0 <= k < steps.drop_last().len() implies valid(
            #[trigger] steps.drop_last()[k],
        ) by {
            assert(valid(steps[k]));
        }
        law_every_state_is_in_order(shards, capacity, quanta, provider, limits, steps.drop_last());
        assert(valid(steps[steps.len() - 1]));
        law_operations_keep_order(run(start, limits, steps.drop_last()), limits, steps.last());
    }
}

/// A task that is handed out was pending, has not expired, was not cancelled, and is
/// not pending any more.
pub proof fn law_handed_out_tasks_are_live<T>(s: StateView<T>, now: Instant)
    requires
        s.inv(),
    ensures
        s.dequeue(now).1 matches Some((t, entry)) ==> {
            &&& s.books.pending.contains(entry.id)
            &&& !s.books.cancelled.contains(entry.id)
            &&& !entry.task.expired(now)
            &&& !s.dequeue(now).0.books.pending.contains(entry.id)
        },
{
    delivery::lemma_dequeue_outcome(s, now);
}

/// First in, first out within a tenant and a priority: the task handed out is one of
/// its tenant's queue for its priority, and all that came before it in that queue
/// are stale. The queue keeps what came after it, in order.
pub proof fn law_first_in_first_out<T>(s: StateView<T>, now: Instant)
    requires
        s.inv(),
    ensures
        s.dequeue(now).1 matches Some((t, entry)) ==> s.knows(t) && {
            let l = entry.task.priority.rank();
            let queue = s.tenant(t).lanes[l].queue;
            exists|p: int|
                0 <= p < queue.len() && #[trigger] queue[p] == entry && s.dequeue(now).0.tenant(
                    t,
                ).lanes[l].queue == queue.skip(p + 1) && forall|q: int|
                    0 <= q < p ==> s.books.stale(#[trigger] queue[q], now)
        },
{
    delivery::lemma_dequeue_outcome(s, now);
    if let Some((t, entry)) = s.dequeue(now).1 {
        let l = entry.task.priority.rank();
        let queue = s.tenant(t).lanes[l].queue;
        let left = s.dequeue(now).0.tenant(t).lanes[l].queue;
        let p = choose|p: int| #[trigger]
            delivery::taken(queue, left, s.books, entry, now, p);
        assert(delivery::taken(queue, left, s.books, entry, now, p));
        assert(queue[p] == entry);
    }
}

/// No operation makes a number pending that was handed out before and is not pending.
pub proof fn law_numbers_are_not_reused<T>(s: StateView<T>, limits: Limits, step: Step<T>)
    requires
        s.inv(),
        valid(step),
    ensures
        s.books.last_id <= apply(s, limits, step).books.last_id,
        forall|id: u64| #[trigger]
            apply(s, limits, step).books.pending.contains(id) ==> s.books.pending.contains(id) || id
                > s.books.last_id,
{
    reveal(apply);
    match step {
        Step::Dequeue { now } => {
            delivery::lemma_dequeue_outcome(s, now);
        },
        Step::Attempt { tenant, task, quantum, now } => {
            invariants::lemma_prepared(s, limits, tenant, quantum, now);
        },
        Step::EnqueueReject { tenant, task, quantum, now } => {
            invariants::lemma_prepared(s, limits, tenant, quantum, now);
        },
        Step::EnqueueDrop { tenant, task, strategy, quantum, now } => {
            invariants::lemma_prepared(s, limits, tenant, quantum, now);
        },
        _ => {},
    }
}

/// A number that is not pending any more never is again.
pub proof fn law_what_is_gone_stays_gone<T>(
    s: StateView<T>,
    limits: Limits,
    steps: Seq<Step<T>>,
    id: u64,
)
    requires
        s.inv(),
        s.within(limits),
        s.books.counted(),
        all_valid(steps),
        id <= s.books.last_id,
        !s.books.pending.contains(id),
    ensures
        run(s, limits, steps).inv(),
        run(s, limits, steps).within(limits),
        run(s, limits, steps).books.counted(),
        id <= run(s, limits, steps).books.last_id,
        !run(s, limits, steps).books.pending.contains(id),
    decreases steps.len(),
{
    if steps.len() > 0 {
        let before = steps.drop_last();
        assert forall|k: int| 0 <= k < before.len() implies valid(#[trigger] before[k]) by {
            assert(valid(steps[k]));
        }
        assert(valid(steps[steps.len() - 1]));
        law_what_is_gone_stays_gone(s, limits, before, id);
        let middle = run(s, limits, before);
        law_operations_keep_order(middle, limits, steps.last());
        law_numbers_are_not_reused(middle, limits, steps.last());
    }
}

/// A task is handed out once at most: whatever happens after it was handed out, no
/// attempt hands out its number again.
pub proof fn law_handed_out_at_most_once<T>(
    s: StateView<T>,
    limits: Limits,
    now: Instant,
    steps: Seq<Step<T>>,
    later: Instant,
)
    requires
        s.inv(),
        s.within(limits),
        s.books.counted(),
        all_valid(steps),
    ensures
        s.dequeue(now).1 matches Some((t, entry)) ==> {
            let after = run(s.dequeue(now).0, limits, steps);
            after.dequeue(later).1 matches Some((u, other)) ==> other.id != entry.id
        },
{
    if let Some((t, entry)) = s.dequeue(now).1 {
        let s1 = s.dequeue(now).0;
        delivery::lemma_dequeue_outcome(s, now);
        law_operations_keep_order(s, limits, Step::Dequeue { now });
        assert(apply(s, limits, Step::Dequeue { now }) == s1) by {
            reveal(apply);
        }
        assert(s.books.home.contains_key(entry.id));
        law_what_is_gone_stays_gone(s1, limits, steps, entry.id);
        law_handed_out_tasks_are_live(run(s1, limits, steps), later);
    }
}

/// Cancelling a pending task frees its slot at once, and the task is never handed
/// out, whatever happens after.
pub proof fn law_cancelled_tasks_are_never_handed_out<T>(
    s: StateView<T>,
    limits: Limits,
    id: u64,
    steps: Seq<Step<T>>,
    later: Instant,
)
    requires
        s.inv(),
        s.within(limits),
        s.books.counted(),
        all_valid(steps),
        s.books.pending.contains(id),
    ensures
        s.cancel(id).books.stats.queue_len_estimate == s.books.stats.queue_len_estimate - 1,
        run(s.cancel(id), limits, steps).dequeue(later).1 matches Some((u, other)) ==> other.id
            != id,
{
    let s1 = s.cancel(id);
    law_operations_keep_order(s, limits, Step::Cancel { id });
    assert(apply(s, limits, Step::Cancel { id }) == s1) by {
        reveal(apply);
    }
    assert(s.books.home.dom().contains(id));
    assert(s.books.home.contains_key(id));
    assert(s.books.pending.len() > 0);
    law_what_is_gone_stays_gone(s1, limits, steps, id);
    law_handed_out_tasks_are_live(run(s1, limits, steps), later);
}

/// Cancelling what is not pending changes nothing.
pub proof fn law_cancelling_the_unknown_changes_nothing<T>(s: StateView<T>, id: u64)
    requires
        s.inv(),
        !s.books.pending.contains(id),
    ensures
        s.cancel(id) == s,
{
}

/// The reported queue length is the number of live tasks: those that are queued and
/// were not cancelled.
pub proof fn law_queue_length_counts_live_tasks<T>(s: StateView<T>)
    requires
        s.inv(),
    ensures
        s.books.stats.queue_len_estimate == s.books.pending.len(),
        forall|id: u64| #[trigger]
            s.books.pending.contains(id) <==> !s.books.cancelled.contains(id) && exists|
                t: u64,
                l: int,
                p: int,
            | #[trigger] is_queued(s, t, l, p) && s.tenant(t).lanes[l].queue[p].id == id,
{
    assert forall|id: u64| #[trigger]
        s.books.pending.contains(id) <==> !s.books.cancelled.contains(id) && exists|
            t: u64,
            l: int,
            p: int,
        | #[trigger] is_queued(s, t, l, p) && s.tenant(t).lanes[l].queue[p].id == id by {
        if s.books.pending.contains(id) {
            assert(s.books.home.dom().contains(id));
            assert(s.books.home.contains_key(id));
            let (t, l) = s.books.home[id];
            let i = s.shard_index(t);
            invariants::lemma_shard_index(s, t);
            assert(s.shards[i].inv(s.books.home, i, s.shards.len()));
            assert(s.shards[i].holds(t, l, id));
            let queue = s.shards[i].tenants[t].lanes[l].queue;
            let p = choose|p: int| 0 <= p < queue.len() && (#[trigger] queue[p]).id == id;
            assert(is_queued(s, t, l, p));
        }
        if exists|t: u64, l: int, p: int| #[trigger]
            is_queued(s, t, l, p) && s.tenant(t).lanes[l].queue[p].id == id {
            let (t, l, p) = choose|t: u64, l: int, p: int| #[trigger]
                is_queued(s, t, l, p) && s.tenant(t).lanes[l].queue[p].id == id;
            let i = s.shard_index(t);
            invariants::lemma_shard_index(s, t);
            invariants::lemma_lane_of_shard(s.shards[i], s.books.home, i, s.shards.len(), t, l);
            assert(s.books.home.contains_key(s.tenant(t).lanes[l].queue[p].id));
            assert(s.books.home.dom().contains(id));
        }
    }
}

/// There is an entry at position `p` of the tenant's lane `l`.
pub open spec fn is_queued<T>(s: StateView<T>, t: u64, l: int, p: int) -> bool {
    &&& s.knows(t)
    &&& 0 <= l < LANES
    &&& 0 <= p < s.tenant(t).lanes[l].queue.len()
}

/// A shard in which something is queued is one of those that get turns.
pub proof fn law_shards_with_work_get_turns<T>(s: StateView<T>, t: u64, l: int, p: int)
    requires
        s.inv(),
        is_queued(s, t, l, p),
    ensures
        s.shard_active[s.shard_index(t)],
        s.ready.contains(s.shard_index(t) as usize),
        s.shards[s.shard_index(t)].rings[l].contains(t),
{
    let i = s.shard_index(t);
    invariants::lemma_shard_index(s, t);
    invariants::lemma_lane_of_shard(s.shards[i], s.books.home, i, s.shards.len(), t, l);
    let ring = s.shards[i].rings[l];
    let q = choose|q: int| 0 <= q < ring.len() && ring[q] == t;
    assert(ring.len() > 0);
    assert(s.shards[i].has_work());
}

/// The counters add up. Over any operation, accepted tasks are handed out, expired,
/// given up for others, cancelled or still pending; drops are accounted for by their
/// reasons; every task handed out has its queue time sampled, in one bucket. This is
/// so until a counter reaches the largest number it can hold.
pub proof fn law_counters_add_up<T>(s: StateView<T>, limits: Limits, step: Step<T>)
    requires
        s.inv(),
        s.books.counted(),
        valid(step),
    ensures
        accounts::balanced(
            s.books.stats,
            apply(s, limits, step).books.stats,
            match step {
                Step::Cancel { id } => if s.books.pending.contains(id) {
                    1
                } else {
                    0
                },
                _ => 0,
            },
        ),
{
    reveal(apply);
    match step {
        Step::Dequeue { now } => {
            accounts::lemma_dequeue_balances(s, now);
        },
        Step::Attempt { tenant, task, quantum, now } => {
            accounts::lemma_try_enqueue_balances(s, limits, tenant, task, quantum, now);
        },
        Step::EnqueueReject { tenant, task, quantum, now } => {
            accounts::lemma_enqueue_reject_balances(s, limits, tenant, task, quantum, now);
        },
        Step::EnqueueDrop { tenant, task, strategy, quantum, now } => {
            accounts::lemma_enqueue_drop_balances(s, limits, tenant, task, strategy, quantum, now);
        },
        Step::TimedOut => {
            accounts::lemma_reject_balances(s, EnqueueRejectReason::Timeout);
        },
        Step::Cancel { id } => {
            accounts::lemma_cancel_balances(s, id);
        },
        _ => {},
    }
}

/// Number of operations that cancelled a task.
pub open spec fn cancellations<T>(s: StateView<T>, limits: Limits, steps: Seq<Step<T>>) -> int
    decreases steps.len(),
{
    if steps.len() == 0 {
        0
    } else {
        cancellations(s, limits, steps.drop_last()) + match steps.last() {
            Step::Cancel { id } => if run(
                s,
                limits,
                steps.drop_last(),
            ).books.pending.contains(id) {
                1int
            } else {
                0
            },
            _ => 0,
        }
    }
}

/// In every state of a new scheduler whose counters are not at their ends:
/// `enqueued == queue_len + dequeued + expired + dropped_policy + cancelled` and
/// `dropped == rejected_global + rejected_tenant + timeout_rejected + dropped_policy`,
/// and the histogram holds one observation for each task handed out.
pub proof fn law_accounts_of_every_state<T>(
    shards: nat,
    capacity: nat,
    quanta: Map<u64, u64>,
    provider: Option<QuantumProvider>,
    limits: Limits,
    steps: Seq<Step<T>>,
)
    requires
        1 <= shards <= usize::MAX,
        all_valid(steps),
        accounts::exact(
            run(StateView::<T>::initial(shards, capacity, quanta, provider), limits, steps).books.stats,
        ),
    ensures
        ({
            let start = StateView::<T>::initial(shards, capacity, quanta, provider);
            let stats = run(start, limits, steps).books.stats;
            &&& stats.enqueued == stats.queue_len_estimate + stats.dequeued + stats.expired
                + stats.dropped_policy + cancellations(start, limits, steps)
            &&& stats.dropped == stats.rejected_global + stats.rejected_tenant
                + stats.timeout_rejected + stats.dropped_policy
            &&& stats.queue_time_samples == stats.dequeued
            &&& accounts::sum(stats.queue_time_buckets) == stats.queue_time_samples
        }),
{
    lemma_accounts_of_run(shards, capacity, quanta, provider, limits, steps);
    let start = StateView::<T>::initial(shards, capacity, quanta, provider);
    lemma_sum_of_zeros(start.books.stats.queue_time_buckets);
}

/// The accounts over a run.
proof fn lemma_accounts_of_run<T>(
    shards: nat,
    capacity: nat,
    quanta: Map<u64, u64>,
    provider: Option<QuantumProvider>,
    limits: Limits,
    steps: Seq<Step<T>>,
)
    requires
        1 <= shards <= usize::MAX,
        all_valid(steps),
    ensures
        ({
            let start = StateView::<T>::initial(shards, capacity, quanta, provider);
            accounts::balanced(
                start.books.stats,
                run(start, limits, steps).books.stats,
                cancellations(start, limits, steps),
            )
        }),
    decreases steps.len(),
{
    let start = StateView::<T>::initial(shards, capacity, quanta, provider);
    if steps.len() > 0 {
        let before = steps.drop_last();
        assert forall|k: int| 0 <= k < before.len() implies valid(#[trigger] before[k]) by {
            assert(valid(steps[k]));
        }
        assert(valid(steps[steps.len() - 1]));
        lemma_accounts_of_run(shards, capacity, quanta, provider, limits, before);
        law_every_state_is_in_order(shards, capacity, quanta, provider, limits, before);
        let middle = run(start, limits, before);
        law_counters_add_up(middle, limits, steps.last());
        let more = match steps.last() {
            Step::Cancel { id } => if middle.books.pending.contains(id) {
                1int
            } else {
                0
            },
            _ => 0,
        };
        accounts::lemma_balanced_twice(
            start.books.stats,
            middle.books.stats,
            run(start, limits, steps).books.stats,
            cancellations(start, limits, before),
            more,
        );
    }
}

/// Zeros add up to zero.
proof fn lemma_sum_of_zeros(xs: Seq<int>)
    requires
        forall|i: int| 0 <= i < xs.len() ==> #[trigger] xs[i] == 0,
    ensures
        accounts::sum(xs) == 0,
    decreases xs.len(),
{
    if xs.len() > 0 {
        assert forall|i: int| 0 <= i < xs.drop_last().len() implies #[trigger] xs.drop_last()[i]
            == 0 by {
            assert(xs[i] == 0);
        }
        lemma_sum_of_zeros(xs.drop_last());
        assert(xs[xs.len() - 1] == 0);
    }
}

/// No reported counter is at its end.
pub open spec fn below_end(stats: SchedulerStats) -> bool {
    &&& stats.enqueued < u64::MAX
    &&& stats.dequeued < u64::MAX
    &&& stats.expired < u64::MAX
    &&& stats.dropped < u64::MAX
    &&& stats.rejected_global < u64::MAX
    &&& stats.rejected_tenant < u64::MAX
    &&& stats.timeout_rejected < u64::MAX
    &&& stats.dropped_policy < u64::MAX
    &&& stats.queue_time_samples < u64::MAX
    &&& forall|i: int|
        0 <= i < stats.queue_time_histogram@.len() ==> (
        #[trigger] stats.queue_time_histogram@[i]).count < u64::MAX
}

/// What is reported adds up, in every state of a new scheduler, as long as no counter is
/// at its end: drops are accounted for by their reasons; tasks that were accepted are
/// pending, were handed out, have expired, were given up for others or were cancelled;
/// and every task handed out has its queue time sampled and is in the histogram.
pub proof fn law_reported_figures_add_up<T>(
    shards: nat,
    capacity: nat,
    quanta: Map<u64, u64>,
    provider: Option<QuantumProvider>,
    limits: Limits,
    s: StateView<T>,
    stats: SchedulerStats,
)
    requires
        1 <= shards <= usize::MAX,
        reached(StateView::<T>::initial(shards, capacity, quanta, provider), limits, s),
        s.reports(limits, stats),
        below_end(stats),
    ensures
        stats.dropped == stats.rejected_global + stats.rejected_tenant + stats.timeout_rejected
            + stats.dropped_policy,
        stats.enqueued >= stats.queue_len_estimate + stats.dequeued + stats.expired
            + stats.dropped_policy,
        stats.queue_time_samples == stats.dequeued,
        model::observations(stats.queue_time_histogram@) == stats.dequeued,
        stats.queue_len_estimate <= stats.max_global,
{
    let start = StateView::<T>::initial(shards, capacity, quanta, provider);
    assert(exists|steps: Seq<Step<T>>|
        all_valid(steps) && s == #[trigger] run(start, limits, steps)) by {
        reveal(reached);
    }
    let steps = choose|steps: Seq<Step<T>>|
        all_valid(steps) && s == #[trigger] run(start, limits, steps);
    law_every_state_is_in_order(shards, capacity, quanta, provider, limits, steps);
    let counters = s.books.stats;
    let shown = stats.queue_time_histogram@;
    assert forall|i: int| 0 <= i < counters.queue_time_buckets.len() implies (
    #[trigger] counters.queue_time_buckets[i]) < u64::MAX by {
        assert(shown[i].count < u64::MAX);
    }
    law_accounts_of_every_state(shards, capacity, quanta, provider, limits, steps);
    lemma_cancellations(start, limits, steps);
    lemma_histogram_sum(counters, shown.len());
    assert(shown.take(shown.len() as int) =~= shown);
    assert(counters.queue_time_buckets.take(shown.len() as int) =~= counters.queue_time_buckets);
}

/// The metrics that a new scheduler reports add up, whatever threads have done with it,
/// as long as no counter is at its end.
pub proof fn law_reports_add_up<T>(
    scheduler: Scheduler<T>,
    capacity: nat,
    quanta: Map<u64, u64>,
    provider: Option<QuantumProvider>,
    stats: SchedulerStats,
)
    requires
        scheduler.settings().shards >= 1,
        scheduler.start() == StateView::<T>::initial(
            scheduler.settings().shards as nat,
            capacity,
            quanta,
            provider,
        ),
        scheduler.may_report(stats),
        below_end(stats),
    ensures
        stats.dropped == stats.rejected_global + stats.rejected_tenant + stats.timeout_rejected
            + stats.dropped_policy,
        stats.enqueued >= stats.queue_len_estimate + stats.dequeued + stats.expired
            + stats.dropped_policy,
        stats.queue_time_samples == stats.dequeued,
        model::observations(stats.queue_time_histogram@) == stats.dequeued,
        stats.queue_len_estimate <= stats.max_global,
{
    let limits = scheduler.settings().limits;
    let pre = choose|pre: StateView<T>| #[trigger]
        scheduler.may_be_in(pre) && pre.reports(limits, stats);
    law_reported_figures_add_up(
        scheduler.settings().shards as nat,
        capacity,
        quanta,
        provider,
        limits,
        pre,
        stats,
    );
}

/// The histogram holds what the buckets hold.
proof fn lemma_histogram_sum(counters: model::StatsView, n: nat)
    requires
        counters.queue_time_buckets.len() == model::bucket_bounds().len(),
        forall|i: int|
            0 <= i < counters.queue_time_buckets.len() ==> 0 <= (
            #[trigger] counters.queue_time_buckets[i]) <= u64::MAX,
        n <= counters.queue_time_buckets.len(),
    ensures
        model::observations(model::histogram(counters).take(n as int)) == accounts::sum(
            counters.queue_time_buckets.take(n as int),
        ),
    decreases n,
{
    if n > 0 {
        lemma_histogram_sum(counters, (n - 1) as nat);
        let shown = model::histogram(counters).take(n as int);
        let buckets = counters.queue_time_buckets.take(n as int);
        assert(shown.drop_last() =~= model::histogram(counters).take(n - 1));
        assert(buckets.drop_last() =~= counters.queue_time_buckets.take(n - 1));
        assert(shown.last().count == buckets.last()) by {
            let _ = counters.queue_time_buckets[n - 1];
        }
    }
}

/// Cancellations are counted from zero.
proof fn lemma_cancellations<T>(s: StateView<T>, limits: Limits, steps: Seq<Step<T>>)
    ensures
        cancellations(s, limits, steps) >= 0,
    decreases steps.len(),
{
    if steps.len() > 0 {
        lemma_cancellations(s, limits, steps.drop_last());
    }
}

/// Shutdown never goes back, by whatever operation.
pub proof fn law_shutdown_never_goes_back<T>(s: StateView<T>, limits: Limits, step: Step<T>)
    requires
        s.inv(),
        valid(step),
    ensures
        s.shutdown.level() <= apply(s, limits, step).shutdown.level(),
{
    reveal(apply);
    match step {
        Step::Dequeue { now } => {
            delivery::lemma_dequeue_outcome(s, now);
        },
        _ => {},
    }
}

/// Once closed, in either mode, a scheduler accepts nothing, and offering it a task
/// changes nothing.
pub proof fn law_closed_schedulers_accept_nothing<T>(
    s: StateView<T>,
    limits: Limits,
    t: u64,
    task: Task<T>,
    strategy: DropStrategy,
    quantum: int,
    now: Instant,
)
    requires
        s.shutdown != ShutdownState::Open,
    ensures
        s.try_enqueue(limits, t, task, quantum, now) == (s, EnqueueAttempt::<T>::Closed(task)),
        s.enqueue_reject(limits, t, task, quantum, now) == (s, EnqueueWithHandleResult::Closed),
        s.enqueue_drop(limits, t, task, strategy, quantum, now) == (
            s,
            EnqueueWithHandleResult::Closed,
        ),
{
}

/// A scheduler that was closed at once answers `Closed`, and attempts change nothing.
pub proof fn law_closed_at_once_hands_out_nothing<T>(s: StateView<T>, now: Instant)
    requires
        s.shutdown == ShutdownState::Immediate,
    ensures
        s.dequeue(now) == (s, None::<(u64, QueueEntry<T>)>),
        s.dequeue(now).0.answer(s.dequeue(now).1) == DequeueResult::<T>::Closed,
{
}

/// A draining scheduler answers `Closed` exactly when nothing is handed out and
/// nothing is pending.
pub proof fn law_draining_ends_when_nothing_is_pending<T>(s: StateView<T>, now: Instant)
    requires
        s.inv(),
        s.shutdown == ShutdownState::Drain,
    ensures
        ({
            let (after, found) = s.dequeue(now);
            after.answer(found) == DequeueResult::<T>::Closed <==> found is None
                && after.books.pending.len() == 0
        }),
{
    delivery::lemma_dequeue_outcome(s, now);
    invariants::lemma_dequeue(s, now);
}

/// An open scheduler never answers `Closed`.
pub proof fn law_open_schedulers_are_not_closed<T>(s: StateView<T>, now: Instant)
    requires
        s.inv(),
        s.shutdown == ShutdownState::Open,
    ensures
        s.dequeue(now).0.answer(s.dequeue(now).1) != DequeueResult::<T>::Closed,
{
    delivery::lemma_dequeue_outcome(s, now);
}

/// More urgent tasks go first: when a task is handed out, no tenant of its shard has,
/// at a more urgent priority, a live task that it can pay for.
pub proof fn law_more_urgent_tasks_go_first<T>(s: StateView<T>, now: Instant, u: u64, m: int)
    requires
        s.inv(),
    ensures
        s.dequeue(now).1 matches Some((t, entry)) ==> {
            s.knows(u) && s.shard_index(u) == s.shard_index(t) && 0 <= m
                < entry.task.priority.rank() ==> !fairness::affordable(
                s.tenant(u).lanes[m],
                s.books,
                now,
            )
        },
{
    if let Some((t, entry)) = s.dequeue(now).1 {
        fairness::lemma_full_attempt(s, now);
        let i = s.shard_index(t);
        let after = s.dequeue(now).0.shards[i];
        if s.knows(u) && s.shard_index(u) == i && 0 <= m < entry.task.priority.rank() {
            let _ = after.tenants[u].lanes[m];
            assert(fairness::passed_over(
                s.tenant(u).lanes[m],
                after.tenants[u].lanes[m],
                s.tenant(u).quantum,
                s.books,
                now,
            ));
        }
    }
}

/// An attempt comes back without a task only if no tenant can pay for a live one, and
/// every tenant that has one earns its quantum.
pub proof fn law_nothing_affordable_is_left_waiting<T>(
    s: StateView<T>,
    now: Instant,
    u: u64,
    m: int,
)
    requires
        s.inv(),
        s.shutdown != ShutdownState::Immediate,
        s.dequeue(now).1 is None,
        s.knows(u),
        0 <= m < LANES,
    ensures
        !fairness::affordable(s.tenant(u).lanes[m], s.books, now),
        fairness::next_live(s.tenant(u).lanes[m].queue, s.books, now) is Some ==> s.dequeue(
            now,
        ).0.tenant(u).lanes[m].deficit == model::budget(
            s.tenant(u).lanes[m].deficit + s.tenant(u).quantum,
        ),
{
    fairness::lemma_empty_attempt(s, now);
    invariants::lemma_shard_index(s, u);
    delivery::lemma_dequeue_outcome(s, now);
    let i = s.shard_index(u);
    let after = s.dequeue(now).0.shards[i];
    assert(fairness::shard_round(s.shards[i], s.books, after, None, 0, now));
    let _ = after.tenants[u].lanes[m];
}

/// A task that is handed out is paid for: the tenant's budget covers its cost, and is
/// less by the cost afterwards. It is the first live one of its queue.
pub proof fn law_service_is_paid_for<T>(s: StateView<T>, now: Instant)
    requires
        s.inv(),
    ensures
        s.dequeue(now).1 matches Some((t, entry)) ==> s.knows(t) && fairness::served(
            s.tenant(t).lanes[entry.task.priority.rank()],
            s.dequeue(now).0.tenant(t).lanes[entry.task.priority.rank()],
            entry,
            s.books,
            now,
        ),
{
    if let Some((t, entry)) = s.dequeue(now).1 {
        fairness::lemma_full_attempt(s, now);
        delivery::lemma_dequeue_outcome(s, now);
    }
}

/// Budgets are earned and spent, and nothing else: but for the lane of the task that is
/// handed out, an attempt leaves the budget of a lane as it is, or raises it by the
/// tenant's quantum, once, and that only if a live task is waiting there that the budget
/// did not cover.
pub proof fn law_budgets_are_earned<T>(s: StateView<T>, now: Instant, u: u64, m: int)
    requires
        s.inv(),
        s.knows(u),
        0 <= m < LANES,
        !(s.dequeue(now).1 matches Some((t, entry)) && t == u && entry.task.priority.rank() == m),
    ensures
        ({
            let lane = s.tenant(u).lanes[m];
            let after = s.dequeue(now).0.tenant(u).lanes[m];
            ||| after.deficit == lane.deficit
            ||| {
                &&& fairness::next_live(lane.queue, s.books, now) matches Some(entry)
                &&& lane.deficit < entry.task.cost
                &&& after.deficit == model::budget(lane.deficit + s.tenant(u).quantum)
            }
        }),
{
    fairness::lemma_sweep_handles(s, s.ready.len(), now, u, m);
}

/// Turns go round: after a turn, a tenant that stays in the ring is last, and every
/// other one is a place nearer to the front.
pub proof fn law_turns_go_round<T>(
    shard: ShardView<T>,
    b: BooksView<T>,
    l: int,
    now: Instant,
    i: int,
    n: nat,
)
    requires
        shard.inv(b.home, i, n),
        b.inv(),
        0 <= l < LANES,
        shard.rings[l].len() > 0,
    ensures
        ({
            let after = shard.turn(b, l, now).0.rings[l];
            let ring = shard.rings[l];
            &&& forall|p: int| 1 <= p < ring.len() ==> after[p - 1] == #[trigger] ring[p]
            &&& after.len() == ring.len() && after.last() == ring[0] || after.len() == ring.len()
                - 1
        }),
{
    fairness::lemma_turn_serves(shard, b, l, now, i, n);
}

/// No tenant starves: one that waits in a ring with a live task is served within a
/// bounded number of turns of that ring, namely the turns of those before it and, for
/// each quantum that it is short of the cost, one round.
pub proof fn law_no_tenant_starves<T>(
    shard: ShardView<T>,
    b: BooksView<T>,
    l: int,
    position: int,
    now: Instant,
    i: int,
    n: nat,
)
    requires
        shard.inv(b.home, i, n),
        b.inv(),
        0 <= l < LANES,
        0 <= position < shard.rings[l].len(),
    ensures
        ({
            let t = shard.rings[l][position];
            let lane = shard.tenants[t].lanes[l];
            fairness::next_live(lane.queue, b, now) matches Some(entry) ==> {
                let need = fairness::turns_to_earn(
                    lane.deficit,
                    shard.tenants[t].quantum,
                    model::budget(entry.task.cost as int),
                );
                exists|turns: nat|
                    turns <= need * shard.rings[l].len() + position && {
                        let (shard1, b1) = #[trigger] fairness::after_turns(
                            shard,
                            b,
                            l,
                            turns,
                            now,
                        );
                        shard1.turn(b1, l, now).2 == Some((t, entry))
                    }
            }
        }),
{
    let t = shard.rings[l][position];
    let lane = shard.tenants[t].lanes[l];
    if let Some(entry) = fairness::next_live(lane.queue, b, now) {
        let turns = fairness::lemma_served_in_time(shard, b, l, position, entry, now, i, n);
        let _ = fairness::after_turns(shard, b, l, turns, now);
    }
}

/// Waiting brings a turn closer: with every attempt, a tenant that waits with a live
/// task is served, or has a turn that it cannot pay for and earns its quantum, or
/// moves up in its ring, or its shard moves up, or the turn goes to a more urgent task
/// of its shard.
pub proof fn law_waiting_brings_a_turn_closer<T>(
    s: StateView<T>,
    now: Instant,
    u: u64,
    m: int,
    place: int,
    turn: int,
)
    requires
        s.inv(),
        s.shutdown != ShutdownState::Immediate,
        fairness::waits_at(s, u, m, place, turn),
        fairness::next_live(s.tenant(u).lanes[m].queue, s.books, now) is Some,
    ensures
        fairness::closer(s, s.dequeue(now).0, s.dequeue(now).1, u, m, place, turn),
{
    fairness::lemma_attempt_brings_closer(s, now, u, m, place, turn);
}

/// Whatever else is asked of the scheduler, a tenant that waits keeps its place and its
/// budget.
pub proof fn law_waiting_is_never_set_back<T>(
    s: StateView<T>,
    limits: Limits,
    step: Step<T>,
    u: u64,
    m: int,
    place: int,
    turn: int,
)
    requires
        s.inv(),
        valid(step),
        !(step is Dequeue),
        fairness::waits_at(s, u, m, place, turn),
    ensures
        fairness::undisturbed(s, apply(s, limits, step), u, m, place, turn),
{
    reveal(apply);
    match step {
        Step::Attempt { tenant, task, quantum, now } => {
            lemma_attempt_undisturbed(s, limits, tenant, task, quantum, now, u, m, place, turn);
        },
        Step::EnqueueReject { tenant, task, quantum, now } => {
            lemma_attempt_undisturbed(s, limits, tenant, task, quantum, now, u, m, place, turn);
        },
        Step::EnqueueDrop { tenant, task, strategy, quantum, now } => {
            if s.shutdown == ShutdownState::Open {
                fairness::lemma_prepared_undisturbed(
                    s,
                    limits,
                    tenant,
                    quantum,
                    now,
                    u,
                    m,
                    place,
                    turn,
                );
                invariants::lemma_prepared(s, limits, tenant, quantum, now);
                let state = s.prepared(limits, tenant, quantum, now);
                invariants::lemma_shard_index(state, tenant);
                let home = state.books.home;
                assert(state.shards[state.shard_index(tenant)].tenant_inv(tenant, home));
                fairness::lemma_accepted_undisturbed(state, tenant, task, true, u, m, place, turn);
                let lane = state.tenant(tenant).victim_lane(task.priority.rank());
                if let Some(l) = lane {
                    let p = state.tenant(tenant).victim_position(l, strategy);
                    let lighter = state.without_victim(tenant, l, p);
                    fairness::lemma_victim_undisturbed(state, tenant, l, p, u, m, place, turn);
                    fairness::lemma_accepted_undisturbed(
                        lighter,
                        tenant,
                        task,
                        false,
                        u,
                        m,
                        place,
                        turn,
                    );
                }
            }
        },
        Step::Fix { tenant, quantum } => {
            let fixed = s.with_fixed(tenant, quantum);
            fairness::lemma_quantum_undisturbed(
                fixed,
                tenant,
                model::effective_quantum(Some(quantum), None, 0),
                u,
                m,
                place,
                turn,
            );
        },
        Step::Grant { tenant, quantum } => {
            fairness::lemma_quantum_undisturbed(s, tenant, quantum, u, m, place, turn);
        },
        _ => {},
    }
}

/// An attempt to enqueue disturbs no one who waits.
proof fn lemma_attempt_undisturbed<T>(
    s: StateView<T>,
    limits: Limits,
    t: u64,
    task: Task<T>,
    quantum: int,
    now: Instant,
    u: u64,
    m: int,
    place: int,
    turn: int,
)
    requires
        s.inv(),
        1 <= quantum <= i64::MAX,
        fairness::waits_at(s, u, m, place, turn),
    ensures
        fairness::undisturbed(
            s,
            s.try_enqueue(limits, t, task, quantum, now).0,
            u,
            m,
            place,
            turn,
        ),
{
    if s.shutdown == ShutdownState::Open {
        fairness::lemma_prepared_undisturbed(s, limits, t, quantum, now, u, m, place, turn);
        invariants::lemma_prepared(s, limits, t, quantum, now);
        let state = s.prepared(limits, t, quantum, now);
        invariants::lemma_shard_index(state, t);
        assert(state.shards[state.shard_index(t)].tenant_inv(t, state.books.home));
        fairness::lemma_accepted_undisturbed(state, t, task, true, u, m, place, turn);
    }
}

/// Pending work is handed out before long: while some tenant has a live task, at most
/// as many attempts come back empty as that tenant needs quanta to pay for it.
pub proof fn law_pending_work_is_handed_out<T>(s: StateView<T>, t: u64, l: int, now: Instant)
    requires
        s.inv(),
        s.shutdown != ShutdownState::Immediate,
        s.knows(t),
        0 <= l < LANES,
    ensures
        fairness::next_live(s.tenant(t).lanes[l].queue, s.books, now) matches Some(entry) ==> {
            let need = fairness::turns_to_earn(
                s.tenant(t).lanes[l].deficit,
                s.tenant(t).quantum,
                model::budget(entry.task.cost as int),
            );
            exists|attempts: nat|
                attempts <= need && (#[trigger] fairness::after_attempts(
                    s,
                    attempts,
                    now,
                )).dequeue(now).1 is Some
        },
{
    if let Some(entry) = fairness::next_live(s.tenant(t).lanes[l].queue, s.books, now) {
        let attempts = fairness::lemma_attempts_succeed(s, t, l, entry, now);
        let _ = fairness::after_attempts(s, attempts, now);
    }
}

/// A consumer may sleep after an attempt that found nothing with nothing pending: all
/// queues are empty then, so that the next task that is accepted finds its queue
/// empty, and waiting threads are told.
pub proof fn law_sleeping_is_safe<T>(
    s: StateView<T>,
    now: Instant,
    u: u64,
    m: int,
    task: Task<T>,
    own_slot: bool,
)
    requires
        s.inv(),
        s.shutdown != ShutdownState::Immediate,
        s.dequeue(now).1 is None,
        s.dequeue(now).0.books.pending.len() == 0,
        s.knows(u),
        0 <= m < LANES,
    ensures
        s.dequeue(now).0.tenant(u).lanes[m].queue.len() == 0,
        task.priority.rank() == m ==> s.dequeue(now).0.accepted(u, task, own_slot).books.wake,
{
    fairness::lemma_empty_attempt(s, now);
    invariants::lemma_shard_index(s, u);
    invariants::lemma_dequeue(s, now);
    delivery::lemma_dequeue_outcome(s, now);
    let i = s.shard_index(u);
    let s1 = s.dequeue(now).0;
    let after = s1.shards[i];
    assert(fairness::shard_round(s.shards[i], s.books, after, None, 0, now));
    let lane = s.tenant(u).lanes[m];
    let lane1 = after.tenants[u].lanes[m];
    assert(fairness::passed_over(lane, lane1, s.tenant(u).quantum, s.books, now));
    if lane1.queue.len() > 0 {
        let entry = lane1.queue[0];
        assert(after.tenants.contains_key(u));
        invariants::lemma_lane_of_shard(after, s1.books.home, i, s1.shards.len(), u, m);
        fairness::lemma_next_live_in(lane.queue, s.books, now);
        assert(s1.books.home.contains_key(entry.id));
        assert(s1.books.pending.union(s1.books.cancelled).contains(entry.id));
        assert(s1.books.pending.contains(entry.id));
        assert(s1.books.pending.len() > 0);
    }
}

/// Threads that wait for room are told of it: whenever an operation leaves fewer
/// tasks pending, waiting threads are to be woken.
pub proof fn law_freed_room_is_announced<T>(s: StateView<T>, limits: Limits, step: Step<T>)
    requires
        s.inv(),
        valid(step),
        apply(s, limits, step).books.stats.queue_len_estimate < s.books.stats.queue_len_estimate,
    ensures
        apply(s, limits, step).books.wake,
{
    reveal(apply);
    match step {
        Step::Dequeue { now } => {
            delivery::lemma_dequeue_outcome(s, now);
            invariants::lemma_dequeue(s, now);
        },
        Step::Attempt { tenant, task, quantum, now } => {
            invariants::lemma_prepared(s, limits, tenant, quantum, now);
        },
        Step::EnqueueReject { tenant, task, quantum, now } => {
            invariants::lemma_prepared(s, limits, tenant, quantum, now);
        },
        Step::EnqueueDrop { tenant, task, strategy, quantum, now } => {
            invariants::lemma_prepared(s, limits, tenant, quantum, now);
        },
        _ => {},
    }
}

/// Compaction keeps exactly the live entries, in order.
pub proof fn law_compaction_keeps_the_live<T>(
    b: BooksView<T>,
    queue: Seq<QueueEntry<T>>,
    t: u64,
    l: int,
    now: Instant,
)
    requires
        b.inv(),
        invariants::lane_ok(queue, t, l, b.home),
    ensures
        model::purge(b, queue, now).1 == queue.filter(
            |entry: QueueEntry<T>| !b.stale(entry, now),
        ),
{
    lemma_compacted_part(b, queue, queue.len(), t, l, now);
    assert(queue.take(queue.len() as int) =~= queue);
}

/// Compaction of the first `n` entries of a queue.
proof fn lemma_compacted_part<T>(
    b: BooksView<T>,
    queue: Seq<QueueEntry<T>>,
    n: nat,
    t: u64,
    l: int,
    now: Instant,
)
    requires
        b.inv(),
        invariants::lane_ok(queue, t, l, b.home),
        n <= queue.len(),
    ensures
        model::purge(b, queue.take(n as int), now).1 == queue.take(n as int).filter(
            |entry: QueueEntry<T>| !b.stale(entry, now),
        ),
    decreases n,
{
    reveal(Seq::filter);
    let part = queue.take(n as int);
    let live = |entry: QueueEntry<T>| !b.stale(entry, now);
    if n > 0 {
        let front = part.drop_last();
        assert(front =~= queue.take(n - 1));
        lemma_compacted_part(b, queue, (n - 1) as nat, t, l, now);
        assert(front + queue.skip(n - 1) =~= queue);
        invariants::lemma_purge_part(b, front, queue.skip(n - 1), t, l, now);
        let (b1, kept) = model::purge(b, front, now);
        let entry = part.last();
        let whole = kept + queue.skip(n - 1);
        assert(whole[kept.len() as int] == entry);
        assert(b1.home.contains_key(entry.id));
        assert(b1.pending.union(b1.cancelled).contains(entry.id));
        assert(b1.stale(entry, now) == b.stale(entry, now));
        assert(part.filter(live) == if live(entry) {
            front.filter(live).push(entry)
        } else {
            front.filter(live)
        });
    }
}

/// Limits bind live work: an enqueue is turned away for the tenant's limit only if the
/// tenant has as many live tasks as it may have. Cancelled and expired entries do not
/// stand in the way.
pub proof fn law_tenant_limit_binds_live_tasks<T>(
    s: StateView<T>,
    limits: Limits,
    t: u64,
    task: Task<T>,
    quantum: int,
    now: Instant,
)
    requires
        s.inv(),
        1 <= quantum <= i64::MAX,
        s.try_enqueue(limits, t, task, quantum, now).1 == EnqueueAttempt::Full(
            task,
            EnqueueRejectReason::TenantFull,
        ),
    ensures
        ({
            let after = s.try_enqueue(limits, t, task, quantum, now).0;
            &&& after.tenant(t).total_len() >= limits.max_per_tenant
            &&& forall|l: int, p: int|
                is_queued(after, t, l, p) ==> !after.books.stale(
                    #[trigger] after.tenant(t).lanes[l].queue[p],
                    now,
                ) && s.books.pending.contains(after.tenant(t).lanes[l].queue[p].id)
        }),
{
    invariants::lemma_prepared(s, limits, t, quantum, now);
    let after = s.try_enqueue(limits, t, task, quantum, now).0;
    let i = after.shard_index(t);
    invariants::lemma_shard_index(after, t);
    assert forall|l: int, p: int| is_queued(after, t, l, p) implies !after.books.stale(
        #[trigger] after.tenant(t).lanes[l].queue[p],
        now,
    ) && s.books.pending.contains(after.tenant(t).lanes[l].queue[p].id) by {
        let entry = after.tenant(t).lanes[l].queue[p];
        assert(!after.books.stale(entry, now));
        invariants::lemma_lane_of_shard(
            after.shards[i],
            after.books.home,
            i,
            after.shards.len(),
            t,
            l,
        );
        assert(after.books.home.contains_key(entry.id));
        assert(after.books.pending.union(after.books.cancelled).contains(entry.id));
    }
}

/// An enqueue is turned away for the global limit only if as many tasks are pending as
/// may be, or no number is left to give.
pub proof fn law_global_limit_binds_live_tasks<T>(
    s: StateView<T>,
    limits: Limits,
    t: u64,
    task: Task<T>,
    quantum: int,
    now: Instant,
)
    requires
        s.inv(),
        1 <= quantum <= i64::MAX,
        s.try_enqueue(limits, t, task, quantum, now).1 == EnqueueAttempt::Full(
            task,
            EnqueueRejectReason::GlobalFull,
        ),
    ensures
        s.try_enqueue(limits, t, task, quantum, now).0.books.pending.len() >= limits.max_global
            || s.books.last_id >= u64::MAX,
{
    invariants::lemma_prepared(s, limits, t, quantum, now);
}

/// While there is room for it, an open scheduler accepts a task.
pub proof fn law_tasks_are_accepted_while_there_is_room<T>(
    s: StateView<T>,
    limits: Limits,
    t: u64,
    task: Task<T>,
    quantum: int,
    now: Instant,
)
    requires
        s.inv(),
        s.shutdown == ShutdownState::Open,
        1 <= quantum <= i64::MAX,
        s.books.pending.len() < limits.max_global,
        s.books.last_id < u64::MAX,
        s.shards[s.shard_index(t)].tenant_or_fresh(t, quantum).total_len() < limits.max_per_tenant,
    ensures
        s.try_enqueue(limits, t, task, quantum, now).1 == EnqueueAttempt::<T>::Enqueued(
            TaskHandle((s.books.last_id + 1) as u64),
        ),
        s.try_enqueue(limits, t, task, quantum, now).0.books.pending.contains(
            (s.books.last_id + 1) as u64,
        ),
{
    let i = s.shard_index(t);
    invariants::lemma_shard_index(s, t);
    invariants::lemma_prepared(s, limits, t, quantum, now);
    invariants::lemma_tenant_or_fresh(s.shards[i], s.books.home, i, s.shards.len(), t, quantum);
    let tenant = s.shards[i].tenant_or_fresh(t, quantum);
    capacity::lemma_tidied_shrinks(tenant, s.books, limits, now);
}

/// A task given up for a new one is of the same tenant and no more urgent than the new
/// one; by the one strategy it is the oldest live task of its queue, by the other the
/// newest. It is live, and is replaced by the new task in the count.
pub proof fn law_no_more_urgent_task_is_given_up<T>(
    s: StateView<T>,
    limits: Limits,
    t: u64,
    task: Task<T>,
    strategy: DropStrategy,
    quantum: int,
    now: Instant,
    id: u64,
)
    requires
        s.inv(),
        1 <= quantum <= i64::MAX,
        s.prepared(limits, t, quantum, now).books.pending.contains(id),
        !s.enqueue_drop(limits, t, task, strategy, quantum, now).0.books.pending.contains(id),
    ensures
        ({
            let state = s.prepared(limits, t, quantum, now);
            let after = s.enqueue_drop(limits, t, task, strategy, quantum, now).0;
            exists|l: int| #[trigger]
                is_given_up(state, t, l, strategy, id) && l >= task.priority.rank()
                    && after.books.stats.queue_len_estimate
                    == state.books.stats.queue_len_estimate
        }),
{
    invariants::lemma_prepared(s, limits, t, quantum, now);
    let state = s.prepared(limits, t, quantum, now);
    let tenant = state.tenant(t);
    let rank = task.priority.rank();
    if tenant.victim_lane(rank) is Some {
        invariants::lemma_victim(tenant, rank, strategy);
        let l = tenant.victim_lane(rank)->0;
        assert(is_given_up(state, t, l, strategy, id));
    }
}

/// The number is that of the oldest or newest entry of the tenant's lane, as the
/// strategy says.
pub open spec fn is_given_up<T>(
    s: StateView<T>,
    t: u64,
    l: int,
    strategy: DropStrategy,
    id: u64,
) -> bool {
    let queue = s.tenant(t).lanes[l].queue;
    &&& s.knows(t)
    &&& 0 <= l < LANES
    &&& queue.len() > 0
    &&& match strategy {
        DropStrategy::Oldest => queue.first().id == id,
        DropStrategy::Newest => queue.last().id == id,
    }
}

/// The table of top talkers has one entry per tenant and no more than its capacity,
/// in every state that is in order.
pub proof fn law_top_talkers_are_bounded<T>(s: StateView<T>)
    requires
        s.inv(),
    ensures
        s.books.top.entries.len() <= s.books.top.capacity,
        forall|i: int, j: int|
            0 <= i < j < s.books.top.entries.len() ==> (#[trigger] s.books.top.entries[i]).tenant
                != (#[trigger] s.books.top.entries[j]).tenant,
{
}

/// Handles are unique: a task that is accepted gets a number above all that were given
/// before.
pub proof fn law_handles_are_unique<T>(
    s: StateView<T>,
    limits: Limits,
    t: u64,
    task: Task<T>,
    strategy: DropStrategy,
    quantum: int,
    now: Instant,
)
    requires
        s.inv(),
        1 <= quantum <= i64::MAX,
    ensures
        s.enqueue_reject(limits, t, task, quantum, now).1 matches EnqueueWithHandleResult::Enqueued(
            handle,
        ) ==> handle.0 > s.books.last_id,
        s.enqueue_drop(limits, t, task, strategy, quantum, now).1
            matches EnqueueWithHandleResult::Enqueued(handle) ==> handle.0 > s.books.last_id,
        forall|id: u64| #[trigger] s.books.pending.contains(id) ==> id <= s.books.last_id,
{
    invariants::lemma_prepared(s, limits, t, quantum, now);
    assert forall|id: u64| #[trigger] s.books.pending.contains(id) implies id <= s.books.last_id by {
        assert(s.books.home.dom().contains(id));
        assert(s.books.home.contains_key(id));
    }
}

/// Closing takes the later of the two modes, says so to waiting threads exactly if that
/// changes anything, and changes nothing else; asking again changes nothing.
pub proof fn law_closing_takes_the_later_mode<T>(s: StateView<T>, mode: CloseMode)
    requires
        s.inv(),
    ensures
        ({
            let after = s.close(mode);
            let asked = match mode {
                CloseMode::Drain => ShutdownState::Drain,
                CloseMode::Immediate => ShutdownState::Immediate,
            };
            &&& after.shutdown.level() == if s.shutdown.level() >= asked.level() {
                s.shutdown.level()
            } else {
                asked.level()
            }
            &&& after.books.wake == (s.books.wake || after.shutdown != s.shutdown)
            &&& after == (StateView {
                shutdown: after.shutdown,
                books: BooksView { wake: after.books.wake, ..s.books },
                ..s
            })
            &&& after.close(mode) == after
        }),
{
}

/// Closing is announced: if it changes anything, waiting threads are to be woken.
pub proof fn law_closing_is_announced<T>(s: StateView<T>, mode: CloseMode)
    requires
        s.close(mode).shutdown != s.shutdown,
    ensures
        s.close(mode).books.wake,
{
}

/// A fixed quantum takes effect at once for a tenant that is known, and is what any
/// other tenant starts with.
pub proof fn law_fixed_quanta_take_effect<T>(
    s: StateView<T>,
    limits: Limits,
    t: u64,
    quantum: u64,
    base: u64,
    granted: int,
)
    requires
        s.inv(),
    ensures
        ({
            let after = apply(s, limits, Step::Fix { tenant: t, quantum });
            let value = model::effective_quantum(Some(quantum), None, 0);
            &&& s.knows(t) ==> after.tenant(t).quantum == value
            &&& after.granted(t, base, granted) <==> granted == value
        }),
{
    reveal(apply);
    invariants::lemma_shard_index(s, t);
}

/// Some bucket is the first to reach a target that all together reach.
pub proof fn lemma_reach_exists(buckets: Seq<QueueTimeBucket>, target: int, n: nat)
    requires
        0 < n <= buckets.len(),
        model::observations(buckets.take(n as int)) >= target,
    ensures
        exists|i: int| #[trigger] model::reaches(buckets, target, i) && i < n,
    decreases n,
{
    if n > 1 && model::observations(buckets.take(n - 1)) >= target {
        lemma_reach_exists(buckets, target, (n - 1) as nat);
    } else {
        assert forall|j: int| 0 <= j < n - 1 implies model::observations(
            #[trigger] buckets.take(j + 1),
        ) < target by {
            lemma_observations_grow(buckets, j + 1, n - 1);
        }
        assert(model::reaches(buckets, target, n - 1));
    }
}

/// More buckets hold no fewer observations.
pub proof fn lemma_observations_grow(buckets: Seq<QueueTimeBucket>, a: int, b: int)
    requires
        0 <= a <= b <= buckets.len(),
    ensures
        0 <= model::observations(buckets.take(a)) <= model::observations(buckets.take(b)),
    decreases b,
{
    if b > 0 {
        assert(buckets.take(b).drop_last() =~= buckets.take(b - 1));
        if a < b {
            lemma_observations_grow(buckets, a, b - 1);
        } else {
            lemma_observations_grow(buckets, a - 1, b - 1);
        }
    }
}

/// A percentile is zero without samples; a higher percentile is not lower; and each is
/// the upper bound of one of the buckets.
pub proof fn law_percentiles_are_ordered(stats: model::StatsView, lower: int, higher: int)
    requires
        0 <= lower <= higher <= 100,
    ensures
        ({
            let buckets = model::histogram(stats);
            &&& model::observations(buckets) == 0 ==> model::percentile(buckets, higher) == 0
            &&& model::percentile(buckets, lower) <= model::percentile(buckets, higher)
            &&& model::observations(buckets) > 0 ==> exists|i: int|
                0 <= i < buckets.len() && model::percentile(buckets, lower) == (
                #[trigger] buckets[i]).le_ns
        }),
{
    let buckets = model::histogram(stats);
    let total = model::observations(buckets);
    let n = buckets.len() as int;
    assert(buckets.take(n) =~= buckets);
    lemma_observations_grow(buckets, 0, n);
    if total > 0 {
        let low = model::rank_of(total, lower);
        let high = model::rank_of(total, higher);
        model::lemma_rank_bounds(total, lower);
        model::lemma_rank_bounds(total, higher);
        assert(total * lower <= total * higher) by (nonlinear_arith)
            requires
                0 <= total,
                lower <= higher,
        ;
        lemma_reach_exists(buckets, low, n as nat);
        lemma_reach_exists(buckets, high, n as nat);
        let i = choose|i: int| #[trigger] model::reaches(buckets, low, i) && i < n;
        let j = choose|j: int| #[trigger] model::reaches(buckets, high, j) && j < n;
        model::lemma_reached(buckets, low, i);
        model::lemma_reached(buckets, high, j);
        if j < i {
            assert(model::observations(buckets.take(j + 1)) < low);
        }
        assert(buckets[i].le_ns == model::bucket_bounds()[i]);
        assert(buckets[j].le_ns == model::bucket_bounds()[j]);
        lemma_bounds_ascend(i, j);
    }
}

/// Bounds of the histogram ascend.
pub proof fn lemma_bounds_ascend(i: int, j: int)
    requires
        0 <= i <= j < model::bucket_bounds().len(),
    ensures
        model::bucket_bounds()[i] <= model::bucket_bounds()[j],
{
}

/// Numbers are kept as they are for as long as they can be held, and at the largest that
/// can be held from there on: counters, budgets and moments.
pub proof fn law_numbers_stop_at_their_end(x: int)
    ensures
        x <= u64::MAX ==> model::sat(x) == x,
        x > u64::MAX ==> model::sat(x) == u64::MAX,
        x <= i64::MAX ==> model::budget(x) == x,
        x > i64::MAX ==> model::budget(x) == i64::MAX,
        i128::MIN <= x <= i128::MAX ==> crate::time::clamp_nanos(x) == x,
        x > i128::MAX ==> crate::time::clamp_nanos(x) == i128::MAX,
{
}

} // verus!
