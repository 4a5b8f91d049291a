//! What callers of a shared scheduler can rely on: what each call has done to the state
//! behind the lock, and what that means for calls to come.
use vstd::prelude::*;

use crate::api::{
    BackpressurePolicy, CancelResult, CloseMode, DequeueResult, EnqueueRejectReason, EnqueueResult,
    EnqueueWithHandleResult, QuantumProvider, SchedulerStats, Task, TaskHandle, TenantKey,
};
use crate::capacity;
use crate::engine::{compared, Answer, Offered, Rest, SchedulerState};
use crate::figures;
use crate::invariants;
use crate::keeping;
use crate::laws;
use crate::laws::Step;
use crate::model;
use crate::model::{DropStrategy, Limits, ShutdownState, StateView, TimedAttempt};
use crate::scheduler;
use crate::scheduler::Scheduler;
use crate::time::{Duration, Instant};

verus! {

/// A task that a consumer gets is not late: if it has a deadline, that is not before the
/// consumer began to ask.
pub proof fn law_tasks_are_not_late<T>(
    scheduler: Scheduler<T>,
    since: Instant,
    tenant: TenantKey,
    task: Task<T>,
)
    requires
        scheduler.took_since(since, DequeueResult::Task { tenant, task }),
    ensures
        task.deadline matches Some(deadline) ==> deadline.nanos >= since.nanos,
{
    let r = DequeueResult::Task { tenant, task };
    let limits = scheduler.settings().limits;
    if exists|k: &mut SchedulerState<T>, now: Instant|
        scheduler.behind(*k) && scheduler.tells(since, now) && #[trigger] call_ensures(
            SchedulerState::<T>::try_dequeue,
            (k, now),
            r,
        ) {
        let (k, now) = choose|k: &mut SchedulerState<T>, now: Instant|
            scheduler.behind(*k) && scheduler.tells(since, now) && #[trigger] call_ensures(
                SchedulerState::<T>::try_dequeue,
                (k, now),
                r,
            );
        scheduler.lemma_behind(*k);
        scheduler.lemma_present(since, now);
        laws::law_handed_out_tasks_are_live(k@, now);
    } else {
        let (k, terms, now) = choose|k: &mut SchedulerState<T>, terms: Limits, now: Instant|
            scheduler.behind(*k) && terms == scheduler.settings().limits && scheduler.tells(
                since,
                now,
            ) && #[trigger] call_ensures(SchedulerState::<T>::dequeue_or_idle, (k, terms, now), r);
        scheduler.lemma_behind(*k);
        scheduler.lemma_present(since, now);
        let pre = choose|pre: StateView<T>|
            laws::leads_to(k@, terms, pre) && r == (#[trigger] pre.dequeue(now)).0.answer(
                pre.dequeue(now).1,
            ) && final(k)@ == pre.dequeue(now).0;
        laws::law_handed_out_tasks_are_live(pre, now);
    }
}

/// A task that any way of dequeuing gives is not late by a reading of the scheduler's
/// clock that was taken for it.
pub proof fn law_no_consumer_gets_a_late_task<T>(
    scheduler: Scheduler<T>,
    tenant: TenantKey,
    task: Task<T>,
)
    requires
        scheduler.may_dequeue(DequeueResult::Task { tenant, task }),
    ensures
        exists|since: Instant| #[trigger]
            scheduler.shows(since) && scheduler.took_since(
                since,
                DequeueResult::Task { tenant, task },
            ) && (task.deadline matches Some(deadline) ==> deadline.nanos >= since.nanos),
{
    let r = DequeueResult::Task { tenant, task };
    let since = choose|since: Instant|
        scheduler.shows(since) && #[trigger] scheduler.took_since(since, r);
    law_tasks_are_not_late(scheduler, since, tenant, task);
}

/// What an operation leaves, all being cleared away, is a state that the scheduler can be
/// in.
proof fn lemma_leaves<T>(scheduler: Scheduler<T>, s: StateView<T>, step: Step<T>)
    requires
        scheduler.may_be_in(s),
        laws::valid(step),
        laws::apply(s, scheduler.settings().limits, step).cleared().kept(scheduler.settings()),
    ensures
        scheduler.may_be_in(laws::apply(s, scheduler.settings().limits, step).cleared()),
{
    let limits = scheduler.settings().limits;
    let next = laws::apply(s, limits, step);
    laws::lemma_reached_next(scheduler.start(), limits, s, step);
    laws::lemma_reached_next(scheduler.start(), limits, next, Step::Clear);
    assert(laws::apply(next, limits, Step::Clear) == next.cleared()) by {
        reveal(laws::apply);
    }
}

/// The state behind the lock was offered this very task for the tenant, as the tenant's
/// policy says, and accepted it under the number of the handle; `after` is what was left.
pub open spec fn got_in<T>(
    scheduler: Scheduler<T>,
    k: &mut SchedulerState<T>,
    after: StateView<T>,
    tenant: TenantKey,
    task: Task<T>,
    handle: TaskHandle,
) -> bool {
    let done = EnqueueWithHandleResult::Enqueued(handle);
    match scheduler.policy(tenant) {
        BackpressurePolicy::Reject => exists|
            answer: Option<Answer>,
            current: bool,
            patient: bool,
            now: Instant,
            rest: Rest<T>,
        |
            scheduler.shows(now) && #[trigger] call_ensures(
                SchedulerState::<T>::offer_reject,
                (k, scheduler.settings(), tenant, task, &answer, current, patient, now),
                Offered::<T, EnqueueWithHandleResult>::Done(done, rest),
            ),
        BackpressurePolicy::DropOldestPerTenant => got_in_over(
            scheduler,
            k,
            after,
            tenant,
            task,
            DropStrategy::Oldest,
            handle,
        ),
        BackpressurePolicy::DropNewestPerTenant => got_in_over(
            scheduler,
            k,
            after,
            tenant,
            task,
            DropStrategy::Newest,
            handle,
        ),
        BackpressurePolicy::Timeout { wait } => got_in_time(
            scheduler,
            k,
            tenant,
            task,
            wait,
            handle,
        ),
    }
}

/// The same of an offer of one who waits for room.
pub open spec fn got_in_time<T>(
    scheduler: Scheduler<T>,
    k: &mut SchedulerState<T>,
    tenant: TenantKey,
    task: Task<T>,
    wait: Duration,
    handle: TaskHandle,
) -> bool {
    let done = EnqueueWithHandleResult::Enqueued(handle);
    exists|
        answer: Option<Answer>,
        current: bool,
        patient: bool,
        begin: Instant,
        now: Instant,
        deadline: Instant,
        rest: Rest<T>,
    |
        scheduler.shows(begin) && #[trigger] scheduler::ends(begin, wait, deadline)
            && scheduler.tells(begin, now) && #[trigger] call_ensures(
            SchedulerState::<T>::offer_timed,
            (k, scheduler.settings(), tenant, task, &answer, current, patient, now, deadline),
            Offered::<T, TimedAttempt<T>>::Done(TimedAttempt::Done(done), rest),
        )
}

/// The same of an offer that may cost another task its place; and if it did, the right
/// one: of the tenant's live tasks one that is least urgent, and of those the oldest or
/// the newest.
pub open spec fn got_in_over<T>(
    scheduler: Scheduler<T>,
    k: &mut SchedulerState<T>,
    after: StateView<T>,
    tenant: TenantKey,
    task: Task<T>,
    strategy: DropStrategy,
    handle: TaskHandle,
) -> bool {
    let done = EnqueueWithHandleResult::Enqueued(handle);
    exists|answer: Option<Answer>, current: bool, patient: bool, now: Instant, rest: Rest<T>|
        scheduler.shows(now) && #[trigger] call_ensures(
            SchedulerState::<T>::offer_drop,
            (k, scheduler.settings(), tenant, task, strategy, &answer, current, patient, now),
            Offered::<T, EnqueueWithHandleResult>::Done(done, rest),
        ) && keeping::spares(k@, after, tenant.0, task.priority.rank(), strategy, now)
}

/// The tenant has nothing queued at the task's priority.
pub open spec fn first_work<T>(s: StateView<T>, t: u64, task: Task<T>) -> bool {
    s.knows(t) ==> s.tenant(t).lanes[task.priority.rank()].queue.len() == 0
}

/// An enqueue that answers with a handle has left in the state behind the lock, under the
/// number of that handle, the task that was given, with every field as it was, at the end
/// of the tenant's queue for the task's priority; it is pending, and the number is new. If
/// that queue was empty, waiting threads were told.
pub proof fn law_enqueued_tasks_are_queued<T>(
    scheduler: Scheduler<T>,
    tenant: TenantKey,
    task: Task<T>,
    handle: TaskHandle,
)
    requires
        scheduler.may_enqueue(tenant, task, EnqueueWithHandleResult::Enqueued(handle)),
    ensures
        exists|k: &mut SchedulerState<T>|
            scheduler.behind(*k) && #[trigger] got_in(scheduler, k, final(k)@, tenant, task, handle)
                && keeping::joined(k@, final(k)@, tenant.0, task, handle) && scheduler.may_be_in(
                final(k)@,
            ) && (first_work(k@, tenant.0, task) ==> scheduler.announced()),
{
    match scheduler.policy(tenant) {
        BackpressurePolicy::Reject => {
            lemma_offered_is_queued(scheduler, tenant, task, handle);
        },
        BackpressurePolicy::DropOldestPerTenant => {
            lemma_offered_over_is_queued(scheduler, tenant, task, DropStrategy::Oldest, handle);
        },
        BackpressurePolicy::DropNewestPerTenant => {
            lemma_offered_over_is_queued(scheduler, tenant, task, DropStrategy::Newest, handle);
        },
        BackpressurePolicy::Timeout { wait } => {
            lemma_offered_in_time_is_queued(scheduler, tenant, task, wait, handle);
        },
    }
}

/// An offer that was accepted, to be turned away if a limit is hit.
proof fn lemma_offered_is_queued<T>(
    scheduler: Scheduler<T>,
    tenant: TenantKey,
    task: Task<T>,
    handle: TaskHandle,
)
    requires
        scheduler.policy(tenant) is Reject,
        scheduler.was_offered(tenant, task, EnqueueWithHandleResult::Enqueued(handle)),
    ensures
        exists|k: &mut SchedulerState<T>|
            scheduler.behind(*k) && #[trigger] got_in(scheduler, k, final(k)@, tenant, task, handle)
                && keeping::joined(k@, final(k)@, tenant.0, task, handle) && scheduler.may_be_in(
                final(k)@,
            ) && (first_work(k@, tenant.0, task) ==> scheduler.announced()),
{
    let done = EnqueueWithHandleResult::Enqueued(handle);
    let settings = scheduler.settings();
    let rest = choose|rest: Rest<T>| #[trigger]
        scheduler.was_put(tenant, task, done, rest) && (rest.wake ==> scheduler.announced());
    let (k, answer, current, patient, now) = choose|
        k: &mut SchedulerState<T>,
        answer: Option<Answer>,
        current: bool,
        patient: bool,
        now: Instant,
    |
        scheduler.behind(*k) && scheduler.shows(now) && #[trigger] call_ensures(
            SchedulerState::<T>::offer_reject,
            (k, scheduler.settings(), tenant, task, &answer, current, patient, now),
            Offered::<T, EnqueueWithHandleResult>::Done(done, rest),
        );
    scheduler.lemma_behind(*k);
    let s = k@;
    let t = tenant.0;
    assert(s.offered_reject(settings, t, task, now, done, rest, final(k)@));
    let quantum = choose|quantum: int|
        s.admits(t, settings.quantum, quantum) && ({
            let (next, result) = #[trigger] s.enqueue_reject(
                settings.limits,
                t,
                task,
                quantum,
                now,
            );
            done == result && rest.is_of(next, model::unplaced(done, task)) && final(k)@
                == next.cleared()
        });
    keeping::law_accepted_tasks_are_queued(
        s,
        settings.limits,
        t,
        task,
        DropStrategy::Oldest,
        quantum,
        now,
        now,
        handle,
    );
    if first_work(s, t, task) {
        keeping::law_first_work_is_announced(
            s,
            settings.limits,
            t,
            task,
            DropStrategy::Oldest,
            quantum,
            now,
            now,
        );
    }
    invariants::lemma_enqueue_reject(s, settings.limits, t, task, quantum, now);
    capacity::lemma_enqueue_reject_within(s, settings.limits, t, task, quantum, now);
    let step = Step::EnqueueReject { tenant: t, task, quantum, now };
    let next = s.enqueue_reject(settings.limits, t, task, quantum, now).0;
    assert(laws::apply(s, settings.limits, step) == next) by {
        reveal(laws::apply);
    }
    lemma_leaves(scheduler, s, step);
    lemma_joined_cleared(s, next, t, task, handle);
    assert(got_in(scheduler, k, final(k)@, tenant, task, handle));
}

/// Clearing away does not touch the task.
proof fn lemma_joined_cleared<T>(
    s: StateView<T>,
    after: StateView<T>,
    t: u64,
    task: Task<T>,
    handle: TaskHandle,
)
    requires
        keeping::joined(s, after, t, task, handle),
    ensures
        keeping::joined(s, after.cleared(), t, task, handle),
{
}

/// An offer that was accepted, to take another one's place if a limit is hit.
proof fn lemma_offered_over_is_queued<T>(
    scheduler: Scheduler<T>,
    tenant: TenantKey,
    task: Task<T>,
    strategy: DropStrategy,
    handle: TaskHandle,
)
    requires
        match strategy {
            DropStrategy::Oldest => scheduler.policy(tenant) is DropOldestPerTenant,
            DropStrategy::Newest => scheduler.policy(tenant) is DropNewestPerTenant,
        },
        scheduler.was_offered_over(
            tenant,
            task,
            strategy,
            EnqueueWithHandleResult::Enqueued(handle),
        ),
    ensures
        exists|k: &mut SchedulerState<T>|
            scheduler.behind(*k) && #[trigger] got_in(scheduler, k, final(k)@, tenant, task, handle)
                && keeping::joined(k@, final(k)@, tenant.0, task, handle) && scheduler.may_be_in(
                final(k)@,
            ) && (first_work(k@, tenant.0, task) ==> scheduler.announced()),
{
    let done = EnqueueWithHandleResult::Enqueued(handle);
    let settings = scheduler.settings();
    let rest = choose|rest: Rest<T>| #[trigger]
        scheduler.was_put_over(tenant, task, strategy, done, rest) && (rest.wake
            ==> scheduler.announced());
    let (k, answer, current, patient, now) = choose|
        k: &mut SchedulerState<T>,
        answer: Option<Answer>,
        current: bool,
        patient: bool,
        now: Instant,
    |
        scheduler.behind(*k) && scheduler.shows(now) && #[trigger] call_ensures(
            SchedulerState::<T>::offer_drop,
            (k, scheduler.settings(), tenant, task, strategy, &answer, current, patient, now),
            Offered::<T, EnqueueWithHandleResult>::Done(done, rest),
        );
    scheduler.lemma_behind(*k);
    let s = k@;
    let t = tenant.0;
    assert(s.offered_drop(settings, t, task, strategy, now, done, rest, final(k)@));
    let quantum = choose|quantum: int|
        s.admits(t, settings.quantum, quantum) && ({
            let (next, result) = #[trigger] s.enqueue_drop(
                settings.limits,
                t,
                task,
                strategy,
                quantum,
                now,
            );
            done == result && rest.is_of(next, model::unplaced(done, task)) && final(k)@
                == next.cleared()
        });
    let limits = settings.limits;
    keeping::law_accepted_tasks_are_queued(s, limits, t, task, strategy, quantum, now, now, handle);
    keeping::lemma_spares(s, limits, t, task, strategy, quantum, now);
    if first_work(s, t, task) {
        keeping::law_first_work_is_announced(s, limits, t, task, strategy, quantum, now, now);
    }
    invariants::lemma_enqueue_drop(s, limits, t, task, strategy, quantum, now);
    capacity::lemma_enqueue_drop_within(s, limits, t, task, strategy, quantum, now);
    let step = Step::EnqueueDrop { tenant: t, task, strategy, quantum, now };
    let next = s.enqueue_drop(limits, t, task, strategy, quantum, now).0;
    assert(laws::apply(s, limits, step) == next) by {
        reveal(laws::apply);
    }
    lemma_leaves(scheduler, s, step);
    lemma_joined_cleared(s, next, t, task, handle);
    assert(keeping::spares(s, final(k)@, t, task.priority.rank(), strategy, now)) by {
        assert(final(k)@.books.pending == next.books.pending);
    }
    assert(got_in_over(scheduler, k, final(k)@, tenant, task, strategy, handle));
    assert(got_in(scheduler, k, final(k)@, tenant, task, handle));
}

/// An offer that was accepted, of one who waits for room.
proof fn lemma_offered_in_time_is_queued<T>(
    scheduler: Scheduler<T>,
    tenant: TenantKey,
    task: Task<T>,
    wait: Duration,
    handle: TaskHandle,
)
    requires
        scheduler.policy(tenant) == (BackpressurePolicy::Timeout { wait }),
        scheduler.was_offered_in_time(
            tenant,
            task,
            wait,
            EnqueueWithHandleResult::Enqueued(handle),
        ),
    ensures
        exists|k: &mut SchedulerState<T>|
            scheduler.behind(*k) && #[trigger] got_in(scheduler, k, final(k)@, tenant, task, handle)
                && keeping::joined(k@, final(k)@, tenant.0, task, handle) && scheduler.may_be_in(
                final(k)@,
            ) && (first_work(k@, tenant.0, task) ==> scheduler.announced()),
{
    let done = EnqueueWithHandleResult::Enqueued(handle);
    let settings = scheduler.settings();
    let rest = choose|rest: Rest<T>| #[trigger]
        scheduler.was_put_in_time(tenant, task, wait, done, rest) && (rest.wake
            ==> scheduler.announced());
    let (k, answer, current, patient, begin, now, deadline) = choose|
        k: &mut SchedulerState<T>,
        answer: Option<Answer>,
        current: bool,
        patient: bool,
        begin: Instant,
        now: Instant,
        deadline: Instant,
    |
        scheduler.behind(*k) && scheduler.shows(begin) && #[trigger] scheduler::ends(
            begin,
            wait,
            deadline,
        ) && scheduler.tells(begin, now) && #[trigger] call_ensures(
            SchedulerState::<T>::offer_timed,
            (k, scheduler.settings(), tenant, task, &answer, current, patient, now, deadline),
            Offered::<T, TimedAttempt<T>>::Done(TimedAttempt::Done(done), rest),
        );
    scheduler.lemma_behind(*k);
    let s = k@;
    let t = tenant.0;
    let r = TimedAttempt::<T>::Done(done);
    assert(s.offered_timed(settings, t, task, now, deadline, r, rest, final(k)@));
    let quantum = choose|quantum: int|
        s.admits(t, settings.quantum, quantum) && ({
            let (next, result) = #[trigger] s.timed_enqueue(
                settings.limits,
                t,
                task,
                quantum,
                now,
                deadline,
            );
            r == result && rest.is_of(next, model::unsettled(r, task)) && final(k)@
                == next.cleared()
        });
    let limits = settings.limits;
    keeping::law_accepted_tasks_are_queued(
        s,
        limits,
        t,
        task,
        DropStrategy::Oldest,
        quantum,
        now,
        deadline,
        handle,
    );
    if first_work(s, t, task) {
        keeping::law_first_work_is_announced(
            s,
            limits,
            t,
            task,
            DropStrategy::Oldest,
            quantum,
            now,
            deadline,
        );
    }
    invariants::lemma_try_enqueue(s, limits, t, task, quantum, now);
    capacity::lemma_try_enqueue_within(s, limits, t, task, quantum, now);
    let step = Step::Attempt { tenant: t, task, quantum, now };
    let next = s.timed_enqueue(limits, t, task, quantum, now, deadline).0;
    assert(laws::apply(s, limits, step) == next) by {
        reveal(laws::apply);
    }
    lemma_leaves(scheduler, s, step);
    lemma_joined_cleared(s, next, t, task, handle);
    assert(got_in_time(scheduler, k, tenant, task, wait, handle));
    assert(got_in(scheduler, k, final(k)@, tenant, task, handle));
}

/// An answer without the handle tells the same otherwise.
pub proof fn law_plain_answers_tell_the_same(full: EnqueueWithHandleResult)
    ensures
        full is Enqueued <==> full.plain() is Enqueued,
        full is Closed <==> full.plain() is Closed,
        full is Rejected <==> full.plain() is Rejected,
        full matches EnqueueWithHandleResult::Rejected(reason) ==> full.plain()
            == EnqueueResult::Rejected(reason),
{
}

/// What a scheduler that was closed in this mode answers: enqueues are told so, whatever
/// the policy; nothing is handed out any more if it was closed at once, and every attempt
/// to dequeue is told so; if it is to drain, attempts are told so when nothing is pending.
pub open spec fn is_shut<T>(s: StateView<T>, limits: Limits, mode: CloseMode) -> bool {
    &&& forall|t: u64, task: Task<T>, quantum: int, now: Instant|
        (#[trigger] s.enqueue_reject(limits, t, task, quantum, now)).1
            == EnqueueWithHandleResult::Closed
    &&& forall|t: u64, task: Task<T>, strategy: DropStrategy, quantum: int, now: Instant|
        (#[trigger] s.enqueue_drop(limits, t, task, strategy, quantum, now)).1
            == EnqueueWithHandleResult::Closed
    &&& forall|t: u64, task: Task<T>, quantum: int, now: Instant, deadline: Instant|
        (#[trigger] s.timed_enqueue(limits, t, task, quantum, now, deadline)).1
            == TimedAttempt::<T>::Done(EnqueueWithHandleResult::Closed)
    &&& mode is Immediate ==> forall|now: Instant|
        (#[trigger] s.dequeue(now)).0.answer(s.dequeue(now).1) == DequeueResult::<T>::Closed
            && s.dequeue(now).1 is None
}

/// Turns do not open or close anything.
proof fn lemma_sweep_shutdown<T>(s: StateView<T>, turns: nat, now: Instant)
    ensures
        s.sweep(turns, now).0.shutdown == s.shutdown,
    decreases turns,
{
    if turns > 0 && s.ready.len() > 0 {
        let (s1, found) = s.shard_turn(now);
        if found is None {
            lemma_sweep_shutdown(s1, (turns - 1) as nat, now);
        }
    }
}

/// Operations do not undo a shutdown.
proof fn lemma_shutdown_stays<T>(s: StateView<T>, limits: Limits, steps: Seq<Step<T>>)
    ensures
        s.shutdown != ShutdownState::Open ==> laws::run(s, limits, steps).shutdown
            != ShutdownState::Open,
        s.shutdown == ShutdownState::Immediate ==> laws::run(s, limits, steps).shutdown
            == ShutdownState::Immediate,
    decreases steps.len(),
{
    if steps.len() > 0 {
        lemma_shutdown_stays(s, limits, steps.drop_last());
        let middle = laws::run(s, limits, steps.drop_last());
        reveal(laws::apply);
        match steps.last() {
            Step::Dequeue { now } => {
                lemma_sweep_shutdown(middle, middle.ready.len(), now);
            },
            _ => {},
        }
    }
}

/// What was closed stays closed: whoever asks for shutdown leaves a state behind the lock
/// from which operations lead only to states in which the scheduler is shut, in the mode
/// that was asked for. If it was open before, waiting threads were told.
pub proof fn law_closed_stays_closed<T>(scheduler: Scheduler<T>, mode: CloseMode)
    requires
        scheduler.was_closed(mode),
    ensures
        exists|k: &mut SchedulerState<T>|
            scheduler.behind(*k) && #[trigger] call_ensures(
                SchedulerState::<T>::set_shutdown_mode,
                (k, mode),
                (),
            ) && scheduler.may_be_in(final(k)@) && (k@.shutdown == ShutdownState::Open
                ==> scheduler.announced()) && forall|later: StateView<T>| #[trigger]
                laws::reached(final(k)@, scheduler.settings().limits, later) ==> is_shut(
                    later,
                    scheduler.settings().limits,
                    mode,
                ),
{
    let limits = scheduler.settings().limits;
    let k = choose|k: &mut SchedulerState<T>|
        scheduler.behind(*k) && #[trigger] call_ensures(
            SchedulerState::<T>::set_shutdown_mode,
            (k, mode),
            (),
        ) && (k@.close(mode).shutdown != k@.shutdown ==> scheduler.announced());
    scheduler.lemma_behind(*k);
    let s = k@;
    let after = final(k)@;
    assert(laws::apply(s, limits, Step::Close { mode }) == after) by {
        reveal(laws::apply);
    }
    laws::lemma_reached_next(scheduler.start(), limits, s, Step::Close { mode });
    capacity::lemma_close_within(s, mode, limits);
    assert forall|later: StateView<T>| #[trigger]
        laws::reached(after, limits, later) implies is_shut(later, limits, mode) by {
        reveal(laws::reached);
        let steps = choose|steps: Seq<Step<T>>|
            laws::all_valid(steps) && later == #[trigger] laws::run(after, limits, steps);
        lemma_shutdown_stays(after, limits, steps);
    }
}

/// A task whose cancellation was confirmed was pending in the state behind the lock, and
/// from the state that was left, operations lead only to states in which it is not pending
/// and no attempt hands it out. Nothing else has left or joined the pending tasks. A
/// cancellation that was not confirmed has changed nothing.
pub proof fn law_cancelled_tasks_are_gone<T>(
    scheduler: Scheduler<T>,
    capacity: nat,
    quanta: Map<u64, u64>,
    provider: Option<QuantumProvider>,
    handle: TaskHandle,
    r: CancelResult,
)
    requires
        scheduler.settings().shards >= 1,
        scheduler.start() == StateView::<T>::initial(
            scheduler.settings().shards as nat,
            capacity,
            quanta,
            provider,
        ),
        scheduler.may_cancel(handle, r),
    ensures
        exists|k: &mut SchedulerState<T>|
            scheduler.behind(*k) && #[trigger] call_ensures(
                SchedulerState::<T>::cancel,
                (k, handle),
                r,
            ) && match r {
                CancelResult::Cancelled => k@.books.pending.contains(handle.0)
                    && final(k)@.books.pending == k@.books.pending.remove(handle.0)
                    && final(k)@.shards == k@.shards && forall|later: StateView<T>| #[trigger]
                    laws::reached(final(k)@, scheduler.settings().limits, later) ==> never_given(
                        later,
                        handle,
                    ),
                CancelResult::NotFound => !k@.books.pending.contains(handle.0) && final(k)@ == k@,
            },
{
    let limits = scheduler.settings().limits;
    let k = choose|k: &mut SchedulerState<T>|
        scheduler.behind(*k) && #[trigger] call_ensures(
            SchedulerState::<T>::cancel,
            (k, handle),
            r,
        );
    scheduler.lemma_behind(*k);
    let s = k@;
    let after = final(k)@;
    if r is Cancelled {
        let shards = scheduler.settings().shards as nat;
        lemma_counted(shards, capacity, quanta, provider, limits, s);
        assert(laws::apply(s, limits, Step::Cancel { id: handle.0 }) == after) by {
            reveal(laws::apply);
        }
        laws::law_operations_keep_order(s, limits, Step::Cancel { id: handle.0 });
        assert(s.books.home.dom().contains(handle.0));
        assert(s.books.home.contains_key(handle.0));
        assert forall|later: StateView<T>| #[trigger]
            laws::reached(after, limits, later) implies never_given(later, handle) by {
            reveal(laws::reached);
            let steps = choose|steps: Seq<Step<T>>|
                laws::all_valid(steps) && later == #[trigger] laws::run(after, limits, steps);
            laws::law_what_is_gone_stays_gone(after, limits, steps, handle.0);
            assert forall|now: Instant|
                (#[trigger] later.dequeue(now)).1 matches Some((t, e)) ==> e.id != handle.0 by {
                laws::law_handed_out_tasks_are_live(later, now);
            }
        }
    }
}

/// The task is not pending, and no attempt hands it out.
pub open spec fn never_given<T>(s: StateView<T>, handle: TaskHandle) -> bool {
    &&& !s.books.pending.contains(handle.0)
    &&& forall|now: Instant|
        (#[trigger] s.dequeue(now)).1 matches Some((t, e)) ==> e.id != handle.0
}

/// Counters of a state that a new scheduler gets into are in range.
proof fn lemma_counted<T>(
    shards: nat,
    capacity: nat,
    quanta: Map<u64, u64>,
    provider: Option<QuantumProvider>,
    limits: Limits,
    s: StateView<T>,
)
    requires
        1 <= shards <= usize::MAX,
        laws::reached(StateView::<T>::initial(shards, capacity, quanta, provider), limits, s),
    ensures
        s.books.counted(),
{
    reveal(laws::reached);
    let start = StateView::<T>::initial(shards, capacity, quanta, provider);
    let steps = choose|steps: Seq<Step<T>>|
        laws::all_valid(steps) && s == #[trigger] laws::run(start, limits, steps);
    laws::law_every_state_is_in_order(shards, capacity, quanta, provider, limits, steps);
}

/// The metrics that a scheduler reports tell what has happened to it: there is a history
/// of which they are the figures; and the percentiles hold their shares of the reported
/// histogram.
pub proof fn law_reports_tell_a_history<T>(
    scheduler: Scheduler<T>,
    capacity: nat,
    quanta: Map<u64, u64>,
    provider: Option<QuantumProvider>,
    stats: SchedulerStats,
)
    requires
        scheduler.settings().shards >= 1,
        scheduler.start() == StateView::<T>::initial(
            scheduler.settings().shards as nat,
            capacity,
            quanta,
            provider,
        ),
        scheduler.may_report(stats),
    ensures
        exists|k: &SchedulerState<T>, steps: Seq<Step<T>>|
            scheduler.behind(*k) && #[trigger] call_ensures(
                SchedulerState::<T>::stats,
                (k, scheduler.settings().limits),
                stats,
            ) && laws::all_valid(steps) && k@ == laws::run(
                scheduler.start(),
                scheduler.settings().limits,
                steps,
            ) && #[trigger] figures::tells(
                scheduler.start(),
                scheduler.settings().limits,
                steps,
                stats,
            ),
        ({
            let shown = stats.queue_time_histogram@;
            let total = model::observations(shown);
            &&& total == 0 ==> stats.queue_time_p95_ns == 0 && stats.queue_time_p99_ns == 0
            &&& total > 0 ==> {
                &&& 100 * figures::up_to(shown, stats.queue_time_p95_ns as int) >= 95 * total
                &&& 100 * figures::up_to(shown, stats.queue_time_p95_ns - 1) < 95 * total
                &&& 100 * figures::up_to(shown, stats.queue_time_p99_ns as int) >= 99 * total
                &&& 100 * figures::up_to(shown, stats.queue_time_p99_ns - 1) < 99 * total
            }
        }),
{
    let limits = scheduler.settings().limits;
    let start = scheduler.start();
    let k = choose|k: &SchedulerState<T>|
        scheduler.behind(*k) && #[trigger] call_ensures(
            SchedulerState::<T>::stats,
            (k, scheduler.settings().limits),
            stats,
        );
    scheduler.lemma_behind(*k);
    assert(exists|steps: Seq<Step<T>>|
        laws::all_valid(steps) && k@ == #[trigger] laws::run(start, limits, steps)) by {
        reveal(laws::reached);
    }
    let steps = choose|steps: Seq<Step<T>>|
        laws::all_valid(steps) && k@ == #[trigger] laws::run(start, limits, steps);
    assert(k@.reports(limits, stats));
    figures::law_reports_count_what_happened(
        scheduler.settings().shards as nat,
        capacity,
        quanta,
        provider,
        limits,
        steps,
        stats,
    );
    figures::law_reported_percentiles(k@, limits, stats);
}

/// A budget that is granted per round: at least one, and at most what a budget can hold.
pub open spec fn held(quantum: u64) -> int {
    if quantum < 1 {
        1
    } else if quantum > i64::MAX {
        i64::MAX as int
    } else {
        quantum as int
    }
}

/// What is fixed for a tenant goes before what a provider says, and that before the base.
pub proof fn law_quanta_have_their_order(fixed: u64, provided: Option<u64>, named: u64, base: u64)
    ensures
        model::effective_quantum(Some(fixed), provided, base) == held(fixed),
        model::effective_quantum(None, Some(named), base) == held(named),
        model::effective_quantum(None, None, base) == held(base),
{
}

/// A quantum that was fixed counts: from the state that was left behind the lock on, the
/// tenant is granted that, whatever provider there is, and at once if it is known. Nothing
/// changes for other tenants.
pub proof fn law_fixed_quanta_count<T>(scheduler: Scheduler<T>, tenant: TenantKey, quantum: u64)
    requires
        scheduler.was_fixed(tenant, quantum),
    ensures
        exists|k: &mut SchedulerState<T>|
            scheduler.behind(*k) && #[trigger] call_ensures(
                SchedulerState::<T>::set_tenant_quantum,
                (k, tenant, quantum),
                (),
            ) && scheduler.may_be_in(final(k)@) && goes_by(k@, final(k)@, tenant.0, quantum),
{
    let limits = scheduler.settings().limits;
    let k = choose|k: &mut SchedulerState<T>|
        scheduler.behind(*k) && #[trigger] call_ensures(
            SchedulerState::<T>::set_tenant_quantum,
            (k, tenant, quantum),
            (),
        );
    scheduler.lemma_behind(*k);
    let s = k@;
    let after = final(k)@;
    let step = Step::Fix { tenant: tenant.0, quantum };
    assert(laws::apply(s, limits, step) == after) by {
        reveal(laws::apply);
    }
    laws::lemma_reached_next(scheduler.start(), limits, s, step);
    invariants::lemma_shard_index(s, tenant.0);
    let fixed = s.with_fixed(tenant.0, quantum);
    capacity::lemma_with_quantum_within(
        fixed,
        tenant.0,
        model::effective_quantum(Some(quantum), None, 0),
        limits,
    );
    assert forall|u: u64| u != tenant.0 implies (#[trigger] after.knows(u)) == s.knows(u) && (
    s.knows(u) ==> after.tenant(u) == s.tenant(u)) by {
        invariants::lemma_shard_index(s, u);
    }
}

/// The tenant is granted this much from now on, and nothing changes for others.
pub open spec fn goes_by<T>(s: StateView<T>, after: StateView<T>, t: u64, quantum: u64) -> bool {
    &&& forall|base: u64, granted: int| #[trigger]
        after.granted(t, base, granted) <==> granted == held(quantum)
    &&& s.knows(t) ==> after.knows(t) && after.tenant(t).quantum == held(quantum)
    &&& forall|u: u64|
        u != t ==> (#[trigger] after.knows(u)) == s.knows(u) && (s.knows(u) ==> after.tenant(u)
            == s.tenant(u))
    &&& forall|u: u64|
        u != t ==> (#[trigger] after.quanta.contains_key(u)) == s.quanta.contains_key(u) && (
        s.quanta.contains_key(u) ==> after.quanta[u] == s.quanta[u])
    &&& after.books == s.books
    &&& after.shutdown == s.shutdown
    &&& after.provider == s.provider
}

/// A tenant whose quantum is no longer fixed has none fixed in the state that was left
/// behind the lock, and if there is nobody to be asked it goes by the base, at once if it
/// is known. What is fixed for others stays.
pub proof fn law_released_quanta_are_free<T>(
    scheduler: Scheduler<T>,
    tenant: TenantKey,
    provider: Option<QuantumProvider>,
)
    requires
        scheduler.was_released(tenant, provider),
    ensures
        exists|k: &mut SchedulerState<T>|
            scheduler.behind(*k) && #[trigger] call_ensures(
                SchedulerState::<T>::release,
                (k, tenant, scheduler.settings().quantum),
                provider,
            ) && provider == k@.provider && final(k)@.quanta == k@.quanta.remove(tenant.0)
                && final(k)@.books == k@.books && (provider is None && k@.knows(tenant.0)
                ==> final(k)@.tenant(tenant.0).quantum == held(scheduler.settings().quantum)),
{
    let base = scheduler.settings().quantum;
    let k = choose|k: &mut SchedulerState<T>|
        scheduler.behind(*k) && #[trigger] call_ensures(
            SchedulerState::<T>::release,
            (k, tenant, scheduler.settings().quantum),
            provider,
        );
    scheduler.lemma_behind(*k);
    invariants::lemma_shard_index(k@, tenant.0);
}

/// Who says what a tenant is granted: what is fixed for it, if something is; or else the
/// provider, if there is one; or else the base.
pub proof fn law_grants_have_their_order<T>(s: StateView<T>, t: u64, base: u64, quantum: int)
    ensures
        s.quanta.contains_key(t) ==> (s.granted(t, base, quantum) <==> quantum == held(
            s.quanta[t],
        )),
        !s.quanta.contains_key(t) && s.provider is None ==> (s.granted(t, base, quantum)
            <==> quantum == held(base)),
        !s.quanta.contains_key(t) && s.provider is Some ==> (s.granted(t, base, quantum)
            <==> exists|named: u64| #[trigger]
            s.provider->0.may_grant(TenantKey(t), named) && quantum == held(named)),
{
    if !s.quanta.contains_key(t) && s.provider is Some {
        let provider = s.provider->0;
        if s.granted(t, base, quantum) {
            let named = choose|named: u64|
                #![trigger model::effective_quantum(None, Some(named), base)]
                provider.may_grant(TenantKey(t), named) && quantum == model::effective_quantum(
                    None,
                    Some(named),
                    base,
                );
            assert(provider.may_grant(TenantKey(t), named) && quantum == held(named));
        }
        if exists|named: u64| #[trigger]
            provider.may_grant(TenantKey(t), named) && quantum == held(named) {
            let named = choose|named: u64| #[trigger]
                provider.may_grant(TenantKey(t), named) && quantum == held(named);
            assert(quantum == model::effective_quantum(None, Some(named), base));
        }
    }
}

/// Only new tenants are asked about when tasks come: those that the scheduler does not know
/// and for which nothing is fixed, and only while it takes tasks. A change of provider
/// concerns those that it knows, if nothing is fixed for them.
pub proof fn law_nobody_is_asked_in_vain<T>(s: StateView<T>, t: u64)
    ensures
        s.asks(t) ==> s.shutdown == ShutdownState::Open && s.provider is Some,
        s.asks(t) || s.depends(t) ==> !s.quanta.contains_key(t),
        s.asks(t) ==> !s.knows(t),
        s.depends(t) ==> s.knows(t),
        s.shutdown == ShutdownState::Open && s.provider is Some && !s.quanta.contains_key(t)
            ==> s.asks(t) || s.depends(t),
{
}

/// Without a provider, every tenant that is known goes by what is fixed for it or else by
/// the base, at once; nothing else changes.
pub proof fn law_without_a_provider_the_base_counts<T>(scheduler: Scheduler<T>)
    requires
        scheduler.was_given(None),
    ensures
        exists|k: &mut SchedulerState<T>, previous: Option<QuantumProvider>|
            scheduler.behind(*k) && #[trigger] call_ensures(
                SchedulerState::<T>::set_quantum_provider,
                (k, None, scheduler.settings().quantum),
                previous,
            ) && final(k)@.provider is None && final(k)@.quanta == k@.quanta && final(k)@.books
                == k@.books && final(k)@.shutdown == k@.shutdown && forall|t: u64|
                k@.knows(t) ==> (#[trigger] final(k)@.tenant(t)).quantum == held(
                    if k@.quanta.contains_key(t) {
                        k@.quanta[t]
                    } else {
                        scheduler.settings().quantum
                    },
                ),
{
    let base = scheduler.settings().quantum;
    let (k, previous) = choose|k: &mut SchedulerState<T>, previous: Option<QuantumProvider>|
        scheduler.behind(*k) && #[trigger] call_ensures(
            SchedulerState::<T>::set_quantum_provider,
            (k, None, scheduler.settings().quantum),
            previous,
        );
    scheduler.lemma_behind(*k);
    let start = k@.with_provider(None);
    assert(start.regranted(final(k)@, base));
    assert forall|t: u64| k@.knows(t) implies (#[trigger] final(k)@.tenant(t)).quantum == held(
        if k@.quanta.contains_key(t) {
            k@.quanta[t]
        } else {
            base
        },
    ) by {
        assert(start.knows(t));
        law_grants_have_their_order(start, t, base, final(k)@.tenant(t).quantum);
    }
}

/// Another provider is the one to be asked from then on, and is asked about every tenant
/// that is known and has no fixed quantum, and about no other; nothing else changes.
pub proof fn law_new_providers_are_asked<T>(
    scheduler: Scheduler<T>,
    provider: Option<QuantumProvider>,
    out: (Option<QuantumProvider>, Vec<u64>),
)
    requires
        scheduler.was_installed(provider, out),
    ensures
        exists|k: &mut SchedulerState<T>|
            scheduler.behind(*k) && #[trigger] call_ensures(
                SchedulerState::<T>::install,
                (k, provider),
                out,
            ) && final(k)@ == (StateView { provider, ..k@ }) && out.0 == k@.provider && forall|
                t: u64,
            |
                #[trigger] out.1@.contains(t) <==> k@.knows(t) && !k@.quanta.contains_key(t),
{
    let k = choose|k: &mut SchedulerState<T>|
        scheduler.behind(*k) && #[trigger] call_ensures(
            SchedulerState::<T>::install,
            (k, provider),
            out,
        );
    scheduler.lemma_behind(*k);
    assert forall|t: u64| #[trigger] out.1@.contains(t) <==> k@.knows(t)
        && !k@.quanta.contains_key(t) by {
        assert(out.1@.contains(t) <==> k@.depends(t));
    }
}

/// What a provider said of a tenant counts if it is still the one to be asked and nothing
/// was fixed for the tenant meanwhile: a tenant that is known is granted it at once. If
/// not, nothing changes.
pub proof fn law_answers_count<T>(
    scheduler: Scheduler<T>,
    tenant: TenantKey,
    provider: Option<QuantumProvider>,
)
    requires
        scheduler.was_granted(tenant, provider),
    ensures
        exists|k: &mut SchedulerState<T>, answer: Option<Answer>, current: bool, done: bool|
            scheduler.behind(*k) && #[trigger] call_ensures(
                SchedulerState::<T>::grant,
                (k, tenant, scheduler.settings().quantum, &answer, current),
                done,
            ) && compared(provider, k@.provider, current) && (answer matches Some(a) && a.genuine(
                tenant,
            ) && a.provider == provider) && done
                == (current && !k@.quanta.contains_key(tenant.0)) && (!done ==> final(k)@ == k@)
                && (done && k@.knows(tenant.0) ==> final(k)@.tenant(tenant.0).quantum == held(
                answer->0.quantum,
            )) && final(k)@.books == k@.books && final(k)@.quanta == k@.quanta,
{
    let (k, answer, current, done) = choose|
        k: &mut SchedulerState<T>,
        answer: Option<Answer>,
        current: bool,
        done: bool,
    |
        scheduler.behind(*k) && (answer matches Some(a) && a.genuine(tenant) && a.provider
            == provider) && #[trigger] call_ensures(
            SchedulerState::<T>::grant,
            (k, tenant, scheduler.settings().quantum, &answer, current),
            done,
        ) && compared(provider, k@.provider, current);
    scheduler.lemma_behind(*k);
    invariants::lemma_shard_index(k@, tenant.0);
}

/// Moments are that far apart, or as far as there are moments.
pub open spec fn apart(begin: Instant, now: Instant, wait: Duration) -> bool {
    now.nanos - begin.nanos >= wait.nanos || now.nanos == i128::MAX
}

/// Who gives up waiting has waited: two readings of the scheduler's clock are so far
/// apart.
pub proof fn law_giving_up_takes_its_time<T>(scheduler: Scheduler<T>, wait: Duration)
    requires
        scheduler.time_is_up(wait),
    ensures
        exists|begin: Instant, now: Instant|
            scheduler.shows(begin) && scheduler.shows(now) && #[trigger] apart(begin, now, wait),
{
    let (begin, deadline, now) = choose|begin: Instant, deadline: Instant, now: Instant|
        scheduler.shows(begin) && #[trigger] scheduler::ends(begin, wait, deadline)
            && #[trigger] scheduler.tells(begin, now) && now.nanos >= deadline.nanos;
    scheduler.lemma_present(begin, now);
    assert(apart(begin, now, wait));
}

/// An enqueue that may wait for room, and is turned away, was turned away for want of
/// time, and has had its time.
pub proof fn law_refusals_of_the_patient_take_their_time<T>(
    scheduler: Scheduler<T>,
    tenant: TenantKey,
    task: Task<T>,
    wait: Duration,
    reason: EnqueueRejectReason,
)
    requires
        scheduler.may_wait(tenant, task, wait, EnqueueWithHandleResult::Rejected(reason)),
    ensures
        reason == EnqueueRejectReason::Timeout,
        exists|begin: Instant, now: Instant|
            scheduler.shows(begin) && scheduler.shows(now) && #[trigger] apart(begin, now, wait),
{
    let r = EnqueueWithHandleResult::Rejected(reason);
    let settings = scheduler.settings();
    let rest = choose|rest: Rest<T>| #[trigger]
        scheduler.was_put_in_time(tenant, task, wait, r, rest) && (rest.wake
            ==> scheduler.announced());
    let (k, answer, current, patient, begin, now, deadline) = choose|
        k: &mut SchedulerState<T>,
        answer: Option<Answer>,
        current: bool,
        patient: bool,
        begin: Instant,
        now: Instant,
        deadline: Instant,
    |
        scheduler.behind(*k) && scheduler.shows(begin) && #[trigger] scheduler::ends(
            begin,
            wait,
            deadline,
        ) && scheduler.tells(begin, now) && #[trigger] call_ensures(
            SchedulerState::<T>::offer_timed,
            (k, scheduler.settings(), tenant, task, &answer, current, patient, now, deadline),
            Offered::<T, TimedAttempt<T>>::Done(TimedAttempt::Done(r), rest),
        );
    scheduler.lemma_behind(*k);
    scheduler.lemma_present(begin, now);
    let s = k@;
    let t = tenant.0;
    let done = TimedAttempt::<T>::Done(r);
    assert(s.offered_timed(settings, t, task, now, deadline, done, rest, final(k)@));
    let quantum = choose|quantum: int|
        s.admits(t, settings.quantum, quantum) && ({
            let (next, result) = #[trigger] s.timed_enqueue(
                settings.limits,
                t,
                task,
                quantum,
                now,
                deadline,
            );
            done == result && rest.is_of(next, model::unsettled(done, task)) && final(k)@
                == next.cleared()
        });
    keeping::law_waiting_ends_with_the_time(
        s,
        settings.limits,
        t,
        task,
        quantum,
        now,
        deadline,
    );
    assert(apart(begin, now, wait));
}

/// Tenants are spread over the shards: each has one of them, and the next tenant has the
/// next shard.
pub proof fn law_tenants_are_spread(tenant: u64, shards: nat)
    requires
        1 <= shards,
        tenant < u32::MAX,
    ensures
        0 <= model::shard_of(tenant, shards) < shards,
        tenant < shards ==> model::shard_of(tenant, shards) == tenant,
        model::shard_of((tenant + 1) as u64, shards) == if model::shard_of(tenant, shards) + 1
            == shards {
            0
        } else {
            model::shard_of(tenant, shards) + 1
        },
{
    let n = shards as int;
    let t = tenant as int;
    assert((tenant as usize) as int == t);
    assert(((tenant + 1) as u64 as usize) as int == t + 1);
    let q = t / n;
    let r = t % n;
    vstd::arithmetic::div_mod::lemma_fundamental_div_mod(t, n);
    vstd::arithmetic::div_mod::lemma_mod_bound(t, n);
    if tenant < shards {
        vstd::arithmetic::div_mod::lemma_small_mod(tenant as nat, shards);
    }
    if r + 1 == n {
        assert(t + 1 == (q + 1) * n + 0) by (nonlinear_arith)
            requires
                t == n * q + r,
                r + 1 == n,
        ;
        vstd::arithmetic::div_mod::lemma_fundamental_div_mod_converse(t + 1, n, q + 1, 0);
    } else {
        assert(t + 1 == q * n + (r + 1)) by (nonlinear_arith)
            requires
                t == n * q + r,
        ;
        vstd::arithmetic::div_mod::lemma_fundamental_div_mod_converse(t + 1, n, q, r + 1);
    }
}

} // verus!
