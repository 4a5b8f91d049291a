//! The scheduler that threads share.
//!
//! Each operation takes the lock once, reads the clock once and then does what the
//! model says to the state that it finds. Which state that is depends on the other
//! threads; contracts say of the result that it belongs to some state that a
//! scheduler with these settings can be in.
use std::collections::HashMap;

use vstd::prelude::*;

use crate::api::{
    BackpressurePolicy, CancelResult, CloseMode, DequeueResult, EnqueueRejectReason, EnqueueResult,
    EnqueueWithHandleResult, QuantumProvider, SchedulerConfig, SchedulerStats, Task, TaskHandle,
    TenantKey,
};
use crate::capacity;
use crate::delivery;
use crate::engine::{compared, Answer, Offered, Rest, SchedulerState};
use crate::invariants;
use crate::laws;
use crate::laws::Step;
use crate::model;
use crate::model::{
    DropStrategy, Limits, Settings, StateView, TimedAttempt, PURGE_INTERVAL,
};
use crate::sync::{Guarded, Lock, Ticks, Trial, WorkSignal};
use crate::time::{Clock, Duration, Instant};

verus! {

broadcast use vstd::std_specs::hash::group_hash_axioms;

/// Attempts that find nothing although tasks are pending, before a consumer pauses.
pub const BACKOFF_SPINS: u32 = 64;

/// What a consumer does after an attempt that found nothing.
#[derive(Copy, Clone, Debug, PartialEq, Eq, Structural)]
pub enum Idle {
    /// Tries again at once; so many attempts have failed in a row.
    Spin(u32),
    /// Tries again after a short pause.
    Pause,
    /// Sleeps until something changes.
    Sleep,
}

/// What to do after an attempt that found nothing, the number of failed attempts
/// before it and the number of pending tasks being known. Tasks that are pending
/// become affordable by trying.
pub fn after_empty(spins: u32, pending: u64) -> (idle: Idle)
    ensures
        idle == if pending == 0 {
            Idle::Sleep
        } else if spins + 1 >= BACKOFF_SPINS {
            Idle::Pause
        } else {
            Idle::Spin((spins + 1) as u32)
        },
{
    if pending == 0 {
        Idle::Sleep
    } else if spins >= BACKOFF_SPINS - 1 {
        Idle::Pause
    } else {
        Idle::Spin(spins + 1)
    }
}

/// What a consumer who waits until a deadline does after an attempt that found nothing.
#[derive(Copy, Clone, Debug, PartialEq, Eq, Structural)]
pub enum Missed {
    /// Time is up.
    GiveUp,
    /// Tries again at once; so many attempts have failed in a row.
    Spin(u32),
    /// Waits for something to change, but no longer than this.
    Wait(Duration),
}

/// What to do at `now` after an attempt that found nothing, for one who waits until
/// `deadline`. As long as there is time, it is what `after_empty` says, with no pause or
/// sleep longer than the time left.
pub fn after_miss(
    spins: u32,
    pending: u64,
    now: Instant,
    deadline: Instant,
) -> (next: Missed)
    ensures
        next == if now.nanos >= deadline.nanos {
            Missed::GiveUp
        } else {
            let left = crate::time::clamp_nanos(deadline.nanos - now.nanos);
            if pending == 0 {
                Missed::Wait(Duration { nanos: left as u128 })
            } else if spins + 1 >= BACKOFF_SPINS {
                Missed::Wait(
                    Duration {
                        nanos: if left < 200_000 {
                            left as u128
                        } else {
                            200_000
                        },
                    },
                )
            } else {
                Missed::Spin((spins + 1) as u32)
            }
        },
{
    let left = match now.until(deadline) {
        Some(left) => left,
        None => {
            return Missed::GiveUp;
        },
    };
    match after_empty(spins, pending) {
        Idle::Spin(failed) => Missed::Spin(failed),
        Idle::Pause => Missed::Wait(left.min(backoff_sleep())),
        Idle::Sleep => Missed::Wait(left),
    }
}

/// Length of the pause.
fn backoff_sleep() -> (d: Duration)
    ensures
        d.nanos == 200_000,
{
    Duration::from_micros(200)
}

/// A state that an operation leads to, all being cleared away, is one that operations
/// lead to.
proof fn lemma_step<T>(
    first: SchedulerState<T>,
    settings: Settings,
    s: StateView<T>,
    step: Step<T>,
)
    requires
        laws::reached(first@, settings.limits, s),
        laws::valid(step),
    ensures
        laws::reached(
            first@,
            settings.limits,
            laws::apply(s, settings.limits, step).cleared(),
        ),
{
    let limits = settings.limits;
    laws::lemma_reached_next(first@, limits, s, step);
    let next = laws::apply(s, limits, step);
    laws::lemma_reached_next(first@, limits, next, Step::Clear);
    assert(laws::apply(next, limits, Step::Clear) == next.cleared()) by {
        reveal(laws::apply);
    }
}

/// What an offer leaves is kept in order.
proof fn lemma_offered_reject<T>(
    first: SchedulerState<T>,
    settings: Settings,
    s: StateView<T>,
    t: u64,
    task: Task<T>,
    now: Instant,
    out: Offered<T, EnqueueWithHandleResult>,
    after: StateView<T>,
)
    requires
        s.kept(settings),
        laws::reached(first@, settings.limits, s),
        match out {
            Offered::Done(r, rest) => s.offered_reject(settings, t, task, now, r, rest, after),
            Offered::Ask(..) => after == s,
        },
    ensures
        after.kept(settings),
        laws::reached(first@, settings.limits, after),
{
    if let Offered::Done(r, rest) = out {
        let quantum = choose|quantum: int|
            s.admits(t, settings.quantum, quantum) && ({
                let (next, result) = #[trigger] s.enqueue_reject(
                    settings.limits,
                    t,
                    task,
                    quantum,
                    now,
                );
                r == result && rest.is_of(next, model::unplaced(r, task)) && after
                    == next.cleared()
            });
        invariants::lemma_enqueue_reject(s, settings.limits, t, task, quantum, now);
        capacity::lemma_enqueue_reject_within(s, settings.limits, t, task, quantum, now);
        lemma_step(first, settings, s, Step::EnqueueReject { tenant: t, task, quantum, now });
        reveal(laws::apply);
    }
}

/// What an offer leaves is kept in order.
proof fn lemma_offered_drop<T>(
    first: SchedulerState<T>,
    settings: Settings,
    s: StateView<T>,
    t: u64,
    task: Task<T>,
    strategy: DropStrategy,
    now: Instant,
    out: Offered<T, EnqueueWithHandleResult>,
    after: StateView<T>,
)
    requires
        s.kept(settings),
        laws::reached(first@, settings.limits, s),
        match out {
            Offered::Done(r, rest) => s.offered_drop(
                settings,
                t,
                task,
                strategy,
                now,
                r,
                rest,
                after,
            ),
            Offered::Ask(..) => after == s,
        },
    ensures
        after.kept(settings),
        laws::reached(first@, settings.limits, after),
{
    if let Offered::Done(r, rest) = out {
        let quantum = choose|quantum: int|
            s.admits(t, settings.quantum, quantum) && ({
                let (next, result) = #[trigger] s.enqueue_drop(
                    settings.limits,
                    t,
                    task,
                    strategy,
                    quantum,
                    now,
                );
                r == result && rest.is_of(next, model::unplaced(r, task)) && after
                    == next.cleared()
            });
        invariants::lemma_enqueue_drop(s, settings.limits, t, task, strategy, quantum, now);
        capacity::lemma_enqueue_drop_within(
            s,
            settings.limits,
            t,
            task,
            strategy,
            quantum,
            now,
        );
        let step = Step::EnqueueDrop { tenant: t, task, strategy, quantum, now };
        lemma_step(first, settings, s, step);
        reveal(laws::apply);
    }
}

/// What an offer leaves is kept in order.
proof fn lemma_offered_timed<T>(
    first: SchedulerState<T>,
    settings: Settings,
    s: StateView<T>,
    t: u64,
    task: Task<T>,
    now: Instant,
    deadline: Instant,
    out: Offered<T, TimedAttempt<T>>,
    after: StateView<T>,
)
    requires
        s.kept(settings),
        laws::reached(first@, settings.limits, s),
        match out {
            Offered::Done(r, rest) => s.offered_timed(
                settings,
                t,
                task,
                now,
                deadline,
                r,
                rest,
                after,
            ),
            Offered::Ask(..) => after == s,
        },
    ensures
        after.kept(settings),
        laws::reached(first@, settings.limits, after),
{
    if let Offered::Done(r, rest) = out {
        let quantum = choose|quantum: int|
            s.admits(t, settings.quantum, quantum) && ({
                let (next, result) = #[trigger] s.timed_enqueue(
                    settings.limits,
                    t,
                    task,
                    quantum,
                    now,
                    deadline,
                );
                r == result && rest.is_of(next, model::unsettled(r, task)) && after
                    == next.cleared()
            });
        let limits = settings.limits;
        invariants::lemma_try_enqueue(s, limits, t, task, quantum, now);
        capacity::lemma_try_enqueue_within(s, limits, t, task, quantum, now);
        let step = Step::Attempt { tenant: t, task, quantum, now };
        let tried = s.try_enqueue(limits, t, task, quantum, now).0;
        laws::lemma_reached_next(first@, limits, s, step);
        assert(laws::apply(s, limits, step) == tried) by {
            reveal(laws::apply);
        }
        lemma_timed_parts(s, limits, t, task, quantum, now, deadline);
        let next = s.timed_enqueue(limits, t, task, quantum, now, deadline).0;
        lemma_after_timed(first, settings, tried, next);
    }
}

/// An attempt that may wait is an attempt, with a rejection counted or not; one that
/// goes on waiting has the task still, and time.
proof fn lemma_timed_parts<T>(
    s: StateView<T>,
    limits: Limits,
    t: u64,
    task: Task<T>,
    quantum: int,
    now: Instant,
    deadline: Instant,
)
    ensures
        ({
            let tried = s.try_enqueue(limits, t, task, quantum, now).0;
            let (next, r) = s.timed_enqueue(limits, t, task, quantum, now, deadline);
            &&& next == tried || next == tried.counting_reject(EnqueueRejectReason::Timeout)
            &&& r matches TimedAttempt::Wait(back, _) ==> back == task && now.nanos
                < deadline.nanos
        }),
{
}

/// What follows an attempt is kept in order.
proof fn lemma_after_timed<T>(
    first: SchedulerState<T>,
    settings: Settings,
    tried: StateView<T>,
    next: StateView<T>,
)
    requires
        tried.kept(settings),
        laws::reached(first@, settings.limits, tried),
        next == tried || next == tried.counting_reject(EnqueueRejectReason::Timeout),
    ensures
        next.cleared().kept(settings),
        laws::reached(first@, settings.limits, next.cleared()),
{
    if next == tried {
        laws::lemma_reached_next(first@, settings.limits, tried, Step::Clear);
        reveal(laws::apply);
    } else {
        lemma_step(first, settings, tried, Step::TimedOut);
        reveal(laws::apply);
        invariants::lemma_counting_reject(tried, EnqueueRejectReason::Timeout);
    }
    lemma_cleared(next, settings);
}

/// Clearing away keeps the order.
proof fn lemma_cleared<T>(s: StateView<T>, settings: Settings)
    requires
        s.inv(),
        s.within(settings.limits),
        s.shards.len() == settings.shards,
        s.books.top.capacity == settings.top_capacity,
    ensures
        s.cleared().kept(settings),
{
}

/// A wait of this length that begins at `begin` ends at `deadline`.
pub open spec fn ends(begin: Instant, wait: Duration, deadline: Instant) -> bool {
    deadline.nanos == crate::time::clamp_nanos(begin.nanos + wait.nanos)
}

/// Multi-tenant scheduler: tenants take turns by deficit round robin, and limits
/// bound what may be pending.
#[verifier::reject_recursive_types(T)]
pub struct Scheduler<T> {
    state: Lock<SchedulerState<T>>,
    backpressure: BackpressurePolicy,
    backpressure_by_tenant: HashMap<u64, BackpressurePolicy>,
    work_signal: WorkSignal,
    clock: Clock,
}

impl<T> Scheduler<T> {
    /// What was settled when the scheduler was made.
    pub closed spec fn settings(&self) -> Settings {
        self.state.terms()
    }

    /// The state in which the scheduler was made.
    pub closed spec fn start(&self) -> StateView<T> {
        self.state.first()@
    }

    /// The scheduler can be in this state: operations lead to it from the start, and so
    /// it is in order and within its limits.
    pub open spec fn may_be_in(&self, pre: StateView<T>) -> bool {
        &&& pre.kept(self.settings())
        &&& laws::reached(self.start(), self.settings().limits, pre)
    }

    /// The policy for a tenant.
    pub closed spec fn policy(&self, tenant: TenantKey) -> BackpressurePolicy {
        if self.backpressure_by_tenant@.contains_key(tenant.0) {
            self.backpressure_by_tenant@[tenant.0]
        } else {
            self.backpressure
        }
    }

    /// The state can be the one behind the scheduler's lock.
    pub closed spec fn behind(&self, s: SchedulerState<T>) -> bool {
        s.kept(self.state.terms(), self.state.first())
    }

    /// A state behind the lock is one that the scheduler can be in.
    pub proof fn lemma_behind(self, s: SchedulerState<T>)
        requires
            self.behind(s),
        ensures
            self.may_be_in(s@),
            s.inv(),
            s@.books.removed.len() == 0,
    {
    }

    /// A moment that the scheduler shows is a reading of its clock.
    proof fn law_moments_are_readings(self, t: Instant)
        requires
            self.shows(t),
        ensures
            self.clock.shows(t),
    {
    }

    /// What the present moment of an operation is.
    pub proof fn lemma_present(self, since: Instant, now: Instant)
        requires
            self.tells(since, now),
        ensures
            now.nanos >= since.nanos,
            self.shows(since) ==> self.shows(now),
    {
        crate::time::law_the_present_is_not_past(self.clock, since, now);
    }

    /// The moment is a reading of the scheduler's clock.
    pub closed spec fn shows(&self, t: Instant) -> bool {
        self.clock.shows(t)
    }

    /// The moment is the present one for an operation that began at `since`.
    pub closed spec fn tells(&self, since: Instant, t: Instant) -> bool {
        self.clock.tells(since, t)
    }

    /// The state behind the lock was asked for a task, at the present moment of an operation
    /// that began at `since`, and gave `r`.
    pub open spec fn took_since(&self, since: Instant, r: DequeueResult<T>) -> bool {
        ||| exists|k: &mut SchedulerState<T>, now: Instant|
            self.behind(*k) && self.tells(since, now) && #[trigger] call_ensures(
                SchedulerState::<T>::try_dequeue,
                (k, now),
                r,
            )
        ||| exists|k: &mut SchedulerState<T>, limits: Limits, now: Instant|
            self.behind(*k) && limits == self.settings().limits && self.tells(since, now)
                && #[trigger] call_ensures(
                SchedulerState::<T>::dequeue_or_idle,
                (k, limits, now),
                r,
            )
    }

    /// The state behind the lock was asked for a task, at the present moment of an operation
    /// that began by the scheduler's clock, and gave `r`.
    pub open spec fn took(&self, r: DequeueResult<T>) -> bool {
        exists|since: Instant| self.shows(since) && #[trigger] self.took_since(since, r)
    }

    /// Waiting threads were told that something has changed.
    pub closed spec fn announced(&self) -> bool {
        self.work_signal.has_woken()
    }

    /// `r` is what an attempt to dequeue gives in some state, at a moment that the clock
    /// shows, and such an attempt was made; if it freed room, that was announced.
    pub open spec fn may_dequeue(&self, r: DequeueResult<T>) -> bool {
        &&& self.may_find(r)
        &&& r is Task ==> self.announced()
    }

    /// `r` is what an attempt to dequeue gives in some state, at a moment that the clock
    /// shows, and such an attempt was made.
    pub open spec fn may_find(&self, r: DequeueResult<T>) -> bool {
        &&& exists|pre: StateView<T>, now: Instant|
            self.may_be_in(pre) && self.shows(now) && r == (#[trigger] pre.dequeue(now)).0.answer(
                pre.dequeue(now).1,
            )
        &&& self.took(r)
    }

    /// `r` is what an attempt to dequeue gives in some state, and `pending` the number
    /// of live tasks after it.
    pub open spec fn may_leave(&self, r: DequeueResult<T>, pending: u64) -> bool {
        exists|pre: StateView<T>, now: Instant|
            self.may_be_in(pre) && self.shows(now) && r == (#[trigger] pre.dequeue(now)).0.answer(
                pre.dequeue(now).1,
            ) && pending == pre.dequeue(now).0.books.stats.queue_len_estimate
    }

    /// A wait of this length that began by the scheduler's clock is over by it.
    pub open spec fn time_is_up(&self, wait: Duration) -> bool {
        exists|begin: Instant, deadline: Instant, now: Instant|
            self.shows(begin) && #[trigger] ends(begin, wait, deadline) && #[trigger] self.tells(
                begin,
                now,
            ) && now.nanos >= deadline.nanos
    }

    /// The task was offered to the state behind the lock, to be turned away if a limit is
    /// hit, with this outcome, and what was left to be done was done.
    pub open spec fn was_offered(
        &self,
        tenant: TenantKey,
        task: Task<T>,
        r: EnqueueWithHandleResult,
    ) -> bool {
        exists|rest: Rest<T>| #[trigger]
            self.was_put(tenant, task, r, rest) && (rest.wake ==> self.announced())
    }

    /// The task was offered to the state behind the lock, to be turned away if a limit is
    /// hit; this is the outcome, and what is left to be done.
    pub open spec fn was_put(
        &self,
        tenant: TenantKey,
        task: Task<T>,
        r: EnqueueWithHandleResult,
        rest: Rest<T>,
    ) -> bool {
        exists|
            k: &mut SchedulerState<T>,
            answer: Option<Answer>,
            current: bool,
            patient: bool,
            now: Instant,
        |
            self.behind(*k) && self.shows(now) && #[trigger] call_ensures(
                SchedulerState::<T>::offer_reject,
                (k, self.settings(), tenant, task, &answer, current, patient, now),
                Offered::<T, EnqueueWithHandleResult>::Done(r, rest),
            )
    }

    /// The task was offered to the state behind the lock, to take another one's place if a
    /// limit is hit, with this outcome, and what was left to be done was done.
    pub open spec fn was_offered_over(
        &self,
        tenant: TenantKey,
        task: Task<T>,
        strategy: DropStrategy,
        r: EnqueueWithHandleResult,
    ) -> bool {
        exists|rest: Rest<T>| #[trigger]
            self.was_put_over(tenant, task, strategy, r, rest) && (rest.wake ==> self.announced())
    }

    /// The task was offered to the state behind the lock, to take another one's place if a
    /// limit is hit; this is the outcome, and what is left to be done.
    pub open spec fn was_put_over(
        &self,
        tenant: TenantKey,
        task: Task<T>,
        strategy: DropStrategy,
        r: EnqueueWithHandleResult,
        rest: Rest<T>,
    ) -> bool {
        exists|
            k: &mut SchedulerState<T>,
            answer: Option<Answer>,
            current: bool,
            patient: bool,
            now: Instant,
        |
            self.behind(*k) && self.shows(now) && #[trigger] call_ensures(
                SchedulerState::<T>::offer_drop,
                (k, self.settings(), tenant, task, strategy, &answer, current, patient, now),
                Offered::<T, EnqueueWithHandleResult>::Done(r, rest),
            )
    }

    /// The task was offered to the state behind the lock by one who waits for room up to
    /// `wait`, with this outcome, and what was left to be done was done.
    pub open spec fn was_offered_in_time(
        &self,
        tenant: TenantKey,
        task: Task<T>,
        wait: Duration,
        r: EnqueueWithHandleResult,
    ) -> bool {
        exists|rest: Rest<T>| #[trigger]
            self.was_put_in_time(tenant, task, wait, r, rest) && (rest.wake ==> self.announced())
    }

    /// The task was offered to the state behind the lock by one who waits for room up to
    /// `wait`; this is the outcome, and what is left to be done.
    pub open spec fn was_put_in_time(
        &self,
        tenant: TenantKey,
        task: Task<T>,
        wait: Duration,
        r: EnqueueWithHandleResult,
        rest: Rest<T>,
    ) -> bool {
        exists|
            k: &mut SchedulerState<T>,
            answer: Option<Answer>,
            current: bool,
            patient: bool,
            begin: Instant,
            now: Instant,
            deadline: Instant,
        |
            self.behind(*k) && self.shows(begin) && #[trigger] ends(begin, wait, deadline)
                && self.tells(begin, now) && #[trigger] call_ensures(
                SchedulerState::<T>::offer_timed,
                (k, self.settings(), tenant, task, &answer, current, patient, now, deadline),
                Offered::<T, TimedAttempt<T>>::Done(TimedAttempt::Done(r), rest),
            )
    }

    /// `r` is what an enqueue that turns tasks away gives in some state, and such an
    /// enqueue was made.
    pub open spec fn may_reject(
        &self,
        tenant: TenantKey,
        task: Task<T>,
        r: EnqueueWithHandleResult,
    ) -> bool {
        &&& self.can_reject(tenant, task, r)
        &&& self.was_offered(tenant, task, r)
    }

    /// `r` is what an enqueue that turns tasks away gives in some state.
    pub open spec fn can_reject(
        &self,
        tenant: TenantKey,
        task: Task<T>,
        r: EnqueueWithHandleResult,
    ) -> bool {
        exists|pre: StateView<T>, quantum: int, now: Instant|
            self.may_be_in(pre) && self.shows(now) && pre.admits(
                tenant.0,
                self.settings().quantum,
                quantum,
            ) && r == (#[trigger] pre.enqueue_reject(
                self.settings().limits,
                tenant.0,
                task,
                quantum,
                now,
            )).1
    }

    /// `r` is what an enqueue that gives up tasks gives in some state, and such an enqueue
    /// was made.
    pub open spec fn may_drop(
        &self,
        tenant: TenantKey,
        task: Task<T>,
        strategy: DropStrategy,
        r: EnqueueWithHandleResult,
    ) -> bool {
        &&& self.can_drop(tenant, task, strategy, r)
        &&& self.was_offered_over(tenant, task, strategy, r)
    }

    /// `r` is what an enqueue that gives up tasks gives in some state.
    pub open spec fn can_drop(
        &self,
        tenant: TenantKey,
        task: Task<T>,
        strategy: DropStrategy,
        r: EnqueueWithHandleResult,
    ) -> bool {
        exists|pre: StateView<T>, quantum: int, now: Instant|
            self.may_be_in(pre) && self.shows(now) && pre.admits(
                tenant.0,
                self.settings().quantum,
                quantum,
            ) && r == (#[trigger] pre.enqueue_drop(
                self.settings().limits,
                tenant.0,
                task,
                strategy,
                quantum,
                now,
            )).1
    }

    /// `r` is what an attempt to enqueue settles in some state, for one who waits for
    /// room up to `wait` from the moment `begin` on: in particular a rejection comes
    /// from an attempt that found a limit hit when that time was over. Such an attempt was
    /// made.
    pub open spec fn may_wait(
        &self,
        tenant: TenantKey,
        task: Task<T>,
        wait: Duration,
        r: EnqueueWithHandleResult,
    ) -> bool {
        &&& self.can_wait(tenant, task, wait, r)
        &&& self.was_offered_in_time(tenant, task, wait, r)
    }

    /// `r` is what an attempt to enqueue settles in some state, for one who waits so.
    pub open spec fn can_wait(
        &self,
        tenant: TenantKey,
        task: Task<T>,
        wait: Duration,
        r: EnqueueWithHandleResult,
    ) -> bool {
        exists|
            pre: StateView<T>,
            quantum: int,
            begin: Instant,
            now: Instant,
            deadline: Instant,
        |
            self.may_be_in(pre) && pre.admits(tenant.0, self.settings().quantum, quantum)
                && begin.nanos >= 0 && self.shows(begin) && self.tells(begin, now)
                && #[trigger] ends(begin, wait, deadline) && (#[trigger] pre.timed_enqueue(
                self.settings().limits,
                tenant.0,
                task,
                quantum,
                now,
                deadline,
            )).1 == TimedAttempt::<T>::Done(r)
    }

    /// The state behind the lock was asked to cancel the task, with this outcome.
    pub open spec fn was_cancelled(&self, handle: TaskHandle, r: CancelResult) -> bool {
        exists|k: &mut SchedulerState<T>|
            self.behind(*k) && #[trigger] call_ensures(
                SchedulerState::<T>::cancel,
                (k, handle),
                r,
            )
    }

    /// The state behind the lock was asked for its metrics, and these are they.
    pub open spec fn was_reported(&self, stats: SchedulerStats) -> bool {
        exists|k: &SchedulerState<T>|
            self.behind(*k) && #[trigger] call_ensures(
                SchedulerState::<T>::stats,
                (k, self.settings().limits),
                stats,
            )
    }

    /// The state behind the lock was asked to close in this mode; if that was news, it was
    /// announced.
    pub open spec fn was_closed(&self, mode: CloseMode) -> bool {
        exists|k: &mut SchedulerState<T>|
            self.behind(*k) && #[trigger] call_ensures(
                SchedulerState::<T>::set_shutdown_mode,
                (k, mode),
                (),
            ) && (k@.close(mode).shutdown != k@.shutdown ==> self.announced())
    }

    /// The state behind the lock was told to fix the tenant's quantum.
    pub open spec fn was_fixed(&self, tenant: TenantKey, quantum: u64) -> bool {
        exists|k: &mut SchedulerState<T>|
            self.behind(*k) && #[trigger] call_ensures(
                SchedulerState::<T>::set_tenant_quantum,
                (k, tenant, quantum),
                (),
            )
    }

    /// The state behind the lock was told to forget the tenant's fixed quantum, and said
    /// who is to be asked.
    pub open spec fn was_released(
        &self,
        tenant: TenantKey,
        provider: Option<QuantumProvider>,
    ) -> bool {
        exists|k: &mut SchedulerState<T>|
            self.behind(*k) && #[trigger] call_ensures(
                SchedulerState::<T>::release,
                (k, tenant, self.settings().quantum),
                provider,
            )
    }

    /// The state behind the lock was told what the provider says of the tenant's quantum.
    pub open spec fn was_granted(
        &self,
        tenant: TenantKey,
        provider: Option<QuantumProvider>,
    ) -> bool {
        exists|k: &mut SchedulerState<T>, answer: Option<Answer>, current: bool, done: bool|
            self.behind(*k) && (answer matches Some(a) && a.genuine(tenant) && a.provider
                == provider) && #[trigger] call_ensures(
                SchedulerState::<T>::grant,
                (k, tenant, self.settings().quantum, &answer, current),
                done,
            ) && compared(provider, k@.provider, current)
    }

    /// The state behind the lock was given another provider, and said for which tenants the
    /// quantum is to be asked.
    pub open spec fn was_installed(
        &self,
        provider: Option<QuantumProvider>,
        out: (Option<QuantumProvider>, Vec<u64>),
    ) -> bool {
        exists|k: &mut SchedulerState<T>|
            self.behind(*k) && #[trigger] call_ensures(
                SchedulerState::<T>::install,
                (k, provider),
                out,
            )
    }

    /// The state behind the lock said who is to be asked for the tenant's quantum, and was
    /// told what that one says.
    pub open spec fn was_asked_about(&self, tenant: TenantKey) -> bool {
        exists|k: &SchedulerState<T>, provider: Option<QuantumProvider>|
            self.behind(*k) && #[trigger] call_ensures(
                SchedulerState::<T>::asked,
                (k, tenant),
                provider,
            ) && (provider is Some ==> self.was_granted(tenant, provider))
    }

    /// The state behind the lock was given another provider, which was asked about the
    /// tenants that depend on it; or it was told to do without, and granted anew.
    pub open spec fn was_given(&self, provider: Option<QuantumProvider>) -> bool {
        if provider is Some {
            exists|out: (Option<QuantumProvider>, Vec<u64>)| #[trigger]
                self.was_installed(provider, out) && forall|t: u64|
                    out.1@.contains(t) ==> #[trigger] self.was_asked_about(TenantKey(t))
        } else {
            exists|k: &mut SchedulerState<T>, previous: Option<QuantumProvider>|
                self.behind(*k) && #[trigger] call_ensures(
                    SchedulerState::<T>::set_quantum_provider,
                    (k, None, self.settings().quantum),
                    previous,
                )
        }
    }

    /// `r` is what an enqueue gives under the tenant's policy.
    pub open spec fn may_enqueue(
        &self,
        tenant: TenantKey,
        task: Task<T>,
        r: EnqueueWithHandleResult,
    ) -> bool {
        match self.policy(tenant) {
            BackpressurePolicy::Reject => self.may_reject(tenant, task, r),
            BackpressurePolicy::DropOldestPerTenant => self.may_drop(
                tenant,
                task,
                DropStrategy::Oldest,
                r,
            ),
            BackpressurePolicy::DropNewestPerTenant => self.may_drop(
                tenant,
                task,
                DropStrategy::Newest,
                r,
            ),
            BackpressurePolicy::Timeout { wait } => self.may_wait(tenant, task, wait, r),
        }
    }

    /// `r` is what an enqueue gives under the tenant's policy, the handle left out.
    pub open spec fn may_enqueue_plainly(
        &self,
        tenant: TenantKey,
        task: Task<T>,
        r: EnqueueResult,
    ) -> bool {
        exists|full: EnqueueWithHandleResult| #[trigger]
            self.may_enqueue(tenant, task, full) && r == full.plain()
    }

    /// `r` is what a cancellation gives in some state, and such a cancellation was made; if
    /// it freed room, that was announced.
    pub open spec fn may_cancel(&self, handle: TaskHandle, r: CancelResult) -> bool {
        &&& exists|pre: StateView<T>| #[trigger]
            self.may_be_in(pre) && r == if pre.books.pending.contains(handle.0) {
                CancelResult::Cancelled
            } else {
                CancelResult::NotFound
            }
        &&& self.was_cancelled(handle, r)
        &&& r is Cancelled ==> self.announced()
    }

    /// `stats` are the metrics of some state, and were asked for.
    pub open spec fn may_report(&self, stats: SchedulerStats) -> bool {
        &&& exists|pre: StateView<T>| #[trigger]
            self.may_be_in(pre) && pre.reports(self.settings().limits, stats)
        &&& self.was_reported(stats)
    }

    /// A scheduler with nothing queued. At least one shard is made.
    pub fn new(config: SchedulerConfig) -> (s: Scheduler<T>)
        ensures
            s.settings() == (Settings {
                shards: if config.shards == 0 {
                    1
                } else {
                    config.shards
                },
                limits: Limits {
                    max_global: config.max_global,
                    max_per_tenant: config.max_per_tenant,
                },
                quantum: config.quantum,
                top_capacity: config.top_tenants_capacity,
            }),
            s.start() == StateView::<T>::initial(
                s.settings().shards as nat,
                config.top_tenants_capacity as nat,
                config.quantum_by_tenant@,
                config.quantum_provider,
            ),
            forall|t: TenantKey| #[trigger]
                s.policy(t) == if config.backpressure_by_tenant@.contains_key(t.0) {
                    config.backpressure_by_tenant@[t.0]
                } else {
                    config.backpressure
                },
    {
        let shards: usize = if config.shards == 0 {
            1
        } else {
            config.shards
        };
        let limits = Limits {
            max_global: config.max_global,
            max_per_tenant: config.max_per_tenant,
        };
        let settings = Settings {
            shards,
            limits,
            quantum: config.quantum,
            top_capacity: config.top_tenants_capacity,
        };
        proof {
            capacity::lemma_initial_within::<T>(
                shards as nat,
                settings.top_capacity as nat,
                config.quantum_by_tenant@,
                config.quantum_provider,
                limits,
            );
            laws::lemma_reached_start(
                StateView::<T>::initial(
                    shards as nat,
                    settings.top_capacity as nat,
                    config.quantum_by_tenant@,
                    config.quantum_provider,
                ),
                limits,
            );
        }
        let state = SchedulerState::new(
            shards,
            config.top_tenants_capacity,
            config.quantum_by_tenant,
            config.quantum_provider,
        );
        Scheduler {
            state: Lock::new(settings, state),
            backpressure: config.backpressure,
            backpressure_by_tenant: config.backpressure_by_tenant,
            work_signal: WorkSignal::new(),
            clock: Clock::new(),
        }
    }

    /// The present moment on the time line that task timestamps and deadlines are on.
    pub fn now(&self) -> (now: Instant)
        ensures
            now.nanos >= 0,
            self.shows(now),
    {
        self.clock.now()
    }

    /// The policy for a tenant.
    pub fn backpressure_for(&self, tenant: TenantKey) -> (policy: BackpressurePolicy)
        ensures
            policy == self.policy(tenant),
    {
        match self.backpressure_by_tenant.get(&tenant.0) {
            Some(policy) => *policy,
            None => self.backpressure,
        }
    }

    /// An attempt to dequeue of an operation that began at `since`, and the number of tasks
    /// pending after it.
    fn attempt_dequeue(&self, since: Instant) -> (out: (DequeueResult<T>, u64))
        ensures
            self.took_since(since, out.0),
            self.shows(since) ==> self.may_leave(out.0, out.1),
            self.shows(since) ==> self.may_dequeue(out.0),
    {
        let ghost settings = self.state.terms();
        let ghost first = self.state.first();
        let clock = &self.clock;
        let step = |s: &mut SchedulerState<T>| -> (out: (DequeueResult<T>, u64, Rest<T>))
            requires
                old(s).kept(settings, first),
            ensures
                final(s).kept(settings, first),
                exists|k: &mut SchedulerState<T>, now: Instant, r: DequeueResult<T>|
                    *k == *old(s) && r == out.0 && clock.tells(since, now)
                        && #[trigger] call_ensures(
                        SchedulerState::<T>::try_dequeue,
                        (k, now),
                        r,
                    ) && out.1 == old(s)@.dequeue(now).0.books.stats.queue_len_estimate,
                out.0 is Task ==> out.2.wake,
            {
                let now = clock.now_since(since);
                proof {
                    delivery::lemma_dequeue_outcome(s@, now);
                    capacity::lemma_dequeue_within(s@, settings.limits, now);
                    lemma_step(first, settings, s@, Step::Dequeue { now });
                    reveal(laws::apply);
                }
                let r = s.try_dequeue(now);
                let rest = s.clear();
                (r, s.queue_len(), rest)
            };
        let out = self.state.with(step);
        proof {
            let s: &mut SchedulerState<T> = choose|s: &mut SchedulerState<T>|
                s.kept(settings, first) && call_ensures(step, (s,), out);
            let pre = s@;
            let (k, now, r) = choose|
                k: &mut SchedulerState<T>,
                now: Instant,
                r: DequeueResult<T>,
            |
                *k == *s && r == out.0 && clock.tells(since, now) && #[trigger] call_ensures(
                    SchedulerState::<T>::try_dequeue,
                    (k, now),
                    r,
                ) && out.1 == pre.dequeue(now).0.books.stats.queue_len_estimate;
            assert(self.behind(*k));
            assert(self.took_since(since, r));
            if self.shows(since) {
                crate::time::law_the_present_is_not_past(self.clock, since, now);
                assert(self.may_be_in(pre));
                assert(out.0 == pre.dequeue(now).0.answer(pre.dequeue(now).1));
            }
        }
        let (r, pending, rest) = out;
        self.finish(rest);
        (r, pending)
    }

    /// Does what an operation has left to be done: wakes waiting threads, and lets go of
    /// what is not needed any more. The lock is free by now, so what goes may use the
    /// scheduler as it goes.
    fn finish(&self, rest: Rest<T>)
        ensures
            rest.wake ==> self.work_signal.has_told(),
    {
        if rest.wake {
            self.work_signal.notify_all();
        }
    }

    /// Attempts to dequeue until one brings a task, or none is pending, of an operation that
    /// began at `since`; gives what is left to be done as well.
    fn attempt_thoroughly(&self, since: Instant) -> (out: (DequeueResult<T>, Rest<T>))
        ensures
            self.took_since(since, out.0),
            self.shows(since) ==> self.may_find(out.0),
            out.0 is Task ==> out.1.wake,
    {
        let settings = *self.state.settled();
        let ghost terms = settings;
        let ghost first = self.state.first();
        let clock = &self.clock;
        let step = |s: &mut SchedulerState<T>| -> (out: (DequeueResult<T>, Rest<T>))
            requires
                old(s).kept(terms, first),
            ensures
                final(s).kept(terms, first),
                exists|k: &mut SchedulerState<T>, now: Instant, r: DequeueResult<T>|
                    *k == *old(s) && r == out.0 && clock.tells(since, now)
                        && #[trigger] call_ensures(
                        SchedulerState::<T>::dequeue_or_idle,
                        (k, terms.limits, now),
                        r,
                    ),
                out.0 is Task ==> out.1.wake,
            {
                let now = clock.now_since(since);
                let ghost before = s@;
                let r = s.dequeue_or_idle(settings.limits, now);
                let ghost after = s@;
                proof {
                    let pre = choose|pre: StateView<T>|
                        laws::leads_to(before, terms.limits, pre) && r == (#[trigger] pre.dequeue(
                            now,
                        )).0.answer(pre.dequeue(now).1) && after == pre.dequeue(now).0;
                    laws::lemma_reached_further(first@, terms.limits, before, pre);
                    capacity::lemma_dequeue_within(pre, terms.limits, now);
                    invariants::lemma_dequeue(pre, now);
                    delivery::lemma_dequeue_outcome(pre, now);
                    lemma_step(first, terms, pre, Step::Dequeue { now });
                    reveal(laws::apply);
                }
                (r, s.clear())
            };
        let out = self.state.with(step);
        proof {
            let s: &mut SchedulerState<T> = choose|s: &mut SchedulerState<T>|
                s.kept(terms, first) && call_ensures(step, (s,), out);
            let (k, now, r) = choose|
                k: &mut SchedulerState<T>,
                now: Instant,
                r: DequeueResult<T>,
            |
                *k == *s && r == out.0 && clock.tells(since, now) && #[trigger] call_ensures(
                    SchedulerState::<T>::dequeue_or_idle,
                    (k, terms.limits, now),
                    r,
                );
            assert(self.behind(*k));
            assert(self.took_since(since, r));
            if self.shows(since) {
                crate::time::law_the_present_is_not_past(self.clock, since, now);
                let pre = choose|pre: StateView<T>|
                    laws::leads_to(k@, terms.limits, pre) && out.0 == (#[trigger] pre.dequeue(
                        now,
                    )).0.answer(pre.dequeue(now).1) && final(k)@ == pre.dequeue(now).0;
                laws::lemma_reached_further(first@, terms.limits, k@, pre);
                assert(self.may_be_in(pre));
                assert(out.0 == pre.dequeue(now).0.answer(pre.dequeue(now).1));
            }
        }
        out
    }

    /// One attempt of a consumer that waits; says whether it has to go on waiting.
    fn take_once(&self, ticks: &mut Ticks, trial: &mut Trial<(), DequeueResult<T>, Rest<T>>) -> (
    waits: bool)
        requires
            old(trial).result is None,
        ensures
            final(trial).may() == old(trial).may(),
            final(trial).input == old(trial).input,
            waits == final(trial).result is None,
            final(trial).result matches Some(r) ==> self.may_dequeue(r) && r !is Empty,
    {
        let (r, rest) = self.attempt_thoroughly(self.clock.now());
        if rest.wake {
            self.work_signal.notify_within(ticks);
        }
        trial.rests.push(rest);
        match r {
            DequeueResult::Empty => true,
            other => {
                trial.result = Some(other);
                false
            },
        }
    }

    /// Takes a task, if one can be had at once.
    pub fn try_dequeue(&self) -> (r: DequeueResult<T>)
        ensures
            self.may_dequeue(r),
    {
        self.attempt_dequeue(self.clock.now()).0
    }

    /// Takes a task, waiting for one if need be; `Closed` once nothing more will be
    /// handed out. After as many failed rounds as a `u64` counts, the wait is left to the
    /// signal.
    pub fn dequeue_blocking(&self) -> (r: DequeueResult<T>)
        ensures
            self.may_dequeue(r),
            r !is Empty,
    {
        let mut rounds: u64 = u64::MAX;
        let mut spins: u32 = 0;
        while rounds > 0
            decreases rounds,
        {
            rounds -= 1;
            let observed: u64 = self.work_signal.current();
            let (r, pending) = self.attempt_dequeue(self.clock.now());
            match r {
                DequeueResult::Empty => {
                    match after_empty(spins, pending) {
                        Idle::Spin(failed) => {
                            spins = failed;
                        },
                        Idle::Pause => {
                            self.work_signal.wait_for_change_timeout(observed, backoff_sleep());
                            spins = 0;
                        },
                        Idle::Sleep => {
                            self.work_signal.wait_for_change(observed);
                            spins = 0;
                        },
                    }
                },
                other => {
                    return other;
                },
            }
        }
        self.await_task()
    }

    /// Takes a task as `dequeue_blocking` does, the wait being left to the signal from the
    /// start.
    pub fn await_task(&self) -> (r: DequeueResult<T>)
        ensures
            self.may_dequeue(r),
            r !is Empty,
    {
        let ghost may = |r: DequeueResult<T>| self.may_dequeue(r) && r !is Empty;
        let trial: Trial<(), DequeueResult<T>, Rest<T>> = Trial::new(None, Ghost(may));
        let ghost first = trial;
        let again = |ticks: &mut Ticks, x: &mut Trial<(), DequeueResult<T>, Rest<T>>| -> (waits:
            bool)
            requires
                old(x).result is None,
            ensures
                old(x).follows(&first) ==> final(x).follows(&first),
                waits == final(x).result is None,
            { self.take_once(ticks, x) };
        self.work_signal.wait_for_result(trial, again).result.unwrap()
    }

    /// Takes a task as `await_task` does, but waits no longer than `longest`.
    pub fn await_task_for(&self, longest: Duration) -> (r: Option<DequeueResult<T>>)
        ensures
            match r {
                Some(found) => self.may_dequeue(found) && found !is Empty,
                None => self.may_dequeue(DequeueResult::Empty) && self.time_is_up(longest),
            },
    {
        let begin = self.clock.now();
        match self.await_task_until(begin, longest, begin.after(longest)) {
            DequeueResult::Empty => None,
            found => Some(found),
        }
    }

    /// Takes a task, waiting for one no longer than `timeout`; `Empty` if none came
    /// in time. After as many failed rounds as a `u64` counts, the rest of the wait is
    /// left to the signal.
    pub fn dequeue_blocking_timeout(&self, timeout: Duration) -> (r: DequeueResult<T>)
        ensures
            self.may_dequeue(r),
            r is Empty ==> self.time_is_up(timeout),
    {
        let begin = self.clock.now();
        let deadline = begin.after(timeout);
        let mut rounds: u64 = u64::MAX;
        let mut spins: u32 = 0;
        loop
            invariant
                self.shows(begin),
                ends(begin, timeout, deadline),
            decreases rounds,
        {
            let observed: u64 = self.work_signal.current();
            let (r, pending) = self.attempt_dequeue(self.clock.now());
            match r {
                DequeueResult::Empty => {
                    let now = self.clock.now_since(begin);
                    match after_miss(spins, pending, now, deadline) {
                        Missed::GiveUp => {
                            assert(self.tells(begin, now));
                            return DequeueResult::Empty;
                        },
                        Missed::Spin(failed) => {
                            spins = failed;
                        },
                        Missed::Wait(longest) => {
                            self.work_signal.wait_for_change_timeout(observed, longest);
                            spins = 0;
                        },
                    }
                    if rounds == 0 {
                        return self.await_task_until(begin, timeout, deadline);
                    }
                    rounds -= 1;
                },
                other => {
                    return other;
                },
            }
        }
    }

    /// One attempt of a consumer that waits until `deadline`; says whether it has to go on
    /// waiting.
    fn take_in_time(
        &self,
        begin: Instant,
        timeout: Duration,
        deadline: Instant,
        ticks: &mut Ticks,
        trial: &mut Trial<(), DequeueResult<T>, Rest<T>>,
    ) -> (waits: bool)
        requires
            self.shows(begin),
            ends(begin, timeout, deadline),
            old(trial).result is None,
        ensures
            final(trial).may() == old(trial).may(),
            final(trial).input == old(trial).input,
            waits == final(trial).result is None,
            final(trial).result matches Some(r) ==> self.may_dequeue(r) && (r is Empty
                ==> self.time_is_up(timeout)),
    {
        let (r, rest) = self.attempt_thoroughly(self.clock.now());
        if rest.wake {
            self.work_signal.notify_within(ticks);
        }
        trial.rests.push(rest);
        let now = self.clock.now_since(begin);
        assert(self.tells(begin, now));
        match r {
            DequeueResult::Empty => {
                if deadline.is_after(now) {
                    true
                } else {
                    trial.result = Some(DequeueResult::Empty);
                    false
                }
            },
            other => {
                trial.result = Some(other);
                false
            },
        }
    }

    /// Takes a task, the wait until `deadline` being left to the signal: for as long as there
    /// is time, and then until the clock says so too.
    fn await_task_until(&self, begin: Instant, timeout: Duration, deadline: Instant) -> (r:
        DequeueResult<T>)
        requires
            self.shows(begin),
            ends(begin, timeout, deadline),
        ensures
            self.may_dequeue(r),
            r is Empty ==> self.time_is_up(timeout),
    {
        let ghost may = |r: DequeueResult<T>|
            self.may_dequeue(r) && (r is Empty ==> self.time_is_up(timeout));
        let trial: Trial<(), DequeueResult<T>, Rest<T>> = Trial::new(None, Ghost(may));
        let ghost first = trial;
        let left = match self.clock.now().until(deadline) {
            Some(left) => left,
            None => Duration::from_nanos(0),
        };
        let (secs, nanos) = left.parts();
        let again = |ticks: &mut Ticks, x: &mut Trial<(), DequeueResult<T>, Rest<T>>| -> (waits:
            bool)
            requires
                old(x).result is None,
            ensures
                old(x).follows(&first) ==> final(x).follows(&first),
                waits == final(x).result is None,
            { self.take_in_time(begin, timeout, deadline, ticks, x) };
        let tried = self.work_signal.wait_for_result_until(trial, again, secs, nanos);
        if tried.result.is_some() {
            return tried.result.unwrap();
        }
        let further = |ticks: &mut Ticks, x: &mut Trial<(), DequeueResult<T>, Rest<T>>| -> (waits:
            bool)
            requires
                old(x).result is None,
            ensures
                old(x).follows(&first) ==> final(x).follows(&first),
                waits == final(x).result is None,
            { self.take_in_time(begin, timeout, deadline, ticks, x) };
        self.work_signal.wait_for_result(tried, further).result.unwrap()
    }

    /// Enqueue that turns the task away when a limit is hit. A provider is asked while
    /// the lock is free; an attempt that finds another one in its place asks again.
    fn enqueue_reject_with_handle(&self, tenant: TenantKey, task: Task<T>) -> (r:
        EnqueueWithHandleResult)
        ensures
            self.may_reject(tenant, task, r),
    {
        let mut answer: Option<Answer> = None;
        let mut offer = task;
        let mut rounds: u64 = u64::MAX;
        loop
            invariant
                offer == task,
                answer matches Some(a) ==> a.genuine(tenant),
            decreases rounds,
        {
            match self.offer_reject(tenant, offer, answer, rounds > 0) {
                Offered::Done(r, rest) => {
                    let ghost left = rest;
                    self.finish(rest);
                    assert(self.was_put(tenant, task, r, left));
                    return r;
                },
                Offered::Ask(back, provider) => {
                    offer = back;
                    answer = Answer::of(&provider, tenant);
                    rounds -= 1;
                },
            }
        }
    }

    /// Offers the task once, under the lock.
    fn offer_reject(
        &self,
        tenant: TenantKey,
        task: Task<T>,
        answer: Option<Answer>,
        patient: bool,
    ) -> (out: Offered<T, EnqueueWithHandleResult>)
        requires
            answer matches Some(a) ==> a.genuine(tenant),
        ensures
            match out {
                Offered::Done(r, rest) => self.can_reject(tenant, task, r) && self.was_put(
                    tenant,
                    task,
                    r,
                    rest,
                ),
                Offered::Ask(back, provider) => patient && back == task,
            },
    {
        let settings = *self.state.settled();
        let ghost terms = settings;
        let ghost first = self.state.first();
        let clock = &self.clock;
        let step = |s: &mut SchedulerState<T>| -> (out: Offered<T, EnqueueWithHandleResult>)
            requires
                old(s).kept(terms, first),
            ensures
                final(s).kept(terms, first),
                match out {
                    Offered::Done(r, rest) => exists|now: Instant|
                        clock.shows(now) && #[trigger] old(s)@.offered_reject(terms, tenant.0, task, now, r, rest, final(s)@),
                    Offered::Ask(back, provider) => patient && back == task,
                },
                exists|k: &mut SchedulerState<T>, current: bool, now: Instant|
                    *k == *old(s) && clock.shows(now) && #[trigger] call_ensures(
                        SchedulerState::<T>::offer_reject,
                        (k, settings, tenant, task, &answer, current, patient, now),
                        out,
                    ),
            {
                let now = clock.now();
                let current = s.is_current(&answer);
                let out = s.offer_reject(settings, tenant, task, &answer, current, patient, now);
                proof {
                    lemma_offered_reject(
                        first,
                        terms,
                        old(s)@,
                        tenant.0,
                        task,
                        now,
                        out,
                        s@,
                    );
                }
                out
            };
        let out = self.state.with(step);
        proof {
            let s: &mut SchedulerState<T> = choose|s: &mut SchedulerState<T>|
                s.kept(terms, first) && call_ensures(step, (s,), out);
            let pre = s@;
            assert(self.may_be_in(pre));
            let (k, current, moment) = choose|
                k: &mut SchedulerState<T>,
                current: bool,
                now: Instant,
            |
                *k == *s && clock.shows(now) && #[trigger] call_ensures(
                    SchedulerState::<T>::offer_reject,
                    (k, settings, tenant, task, &answer, current, patient, now),
                    out,
                );
            assert(self.behind(*k));
            if out is Done {
                let r = out->Done_0;
                let rest = out->Done_1;
                assert(out == Offered::<T, EnqueueWithHandleResult>::Done(r, rest));
                let now = choose|now: Instant|
                    clock.shows(now) && #[trigger] pre.offered_reject(terms, tenant.0, task, now, r, rest, final(s)@);
                let quantum = choose|quantum: int|
                    pre.admits(tenant.0, terms.quantum, quantum) && (
                    #[trigger] pre.enqueue_reject(terms.limits, tenant.0, task, quantum, now)).1
                        == r;
                assert(r == pre.enqueue_reject(terms.limits, tenant.0, task, quantum, now).1);
            }
        }
        out
    }

    /// Enqueue that gives up a task of the same tenant when a limit is hit; the provider
    /// is asked as in `enqueue_reject_with_handle`.
    fn enqueue_drop_with_handle(
        &self,
        tenant: TenantKey,
        task: Task<T>,
        strategy: DropStrategy,
    ) -> (r: EnqueueWithHandleResult)
        ensures
            self.may_drop(tenant, task, strategy, r),
    {
        let mut answer: Option<Answer> = None;
        let mut offer = task;
        let mut rounds: u64 = u64::MAX;
        loop
            invariant
                offer == task,
                answer matches Some(a) ==> a.genuine(tenant),
            decreases rounds,
        {
            match self.offer_drop(tenant, offer, strategy, answer, rounds > 0) {
                Offered::Done(r, rest) => {
                    let ghost left = rest;
                    self.finish(rest);
                    assert(self.was_put_over(tenant, task, strategy, r, left));
                    return r;
                },
                Offered::Ask(back, provider) => {
                    offer = back;
                    answer = Answer::of(&provider, tenant);
                    rounds -= 1;
                },
            }
        }
    }

    /// Offers the task once, under the lock.
    fn offer_drop(
        &self,
        tenant: TenantKey,
        task: Task<T>,
        strategy: DropStrategy,
        answer: Option<Answer>,
        patient: bool,
    ) -> (out: Offered<T, EnqueueWithHandleResult>)
        requires
            answer matches Some(a) ==> a.genuine(tenant),
        ensures
            match out {
                Offered::Done(r, rest) => self.can_drop(tenant, task, strategy, r)
                    && self.was_put_over(tenant, task, strategy, r, rest),
                Offered::Ask(back, provider) => patient && back == task,
            },
    {
        let settings = *self.state.settled();
        let ghost terms = settings;
        let ghost first = self.state.first();
        let clock = &self.clock;
        let step = |s: &mut SchedulerState<T>| -> (out: Offered<T, EnqueueWithHandleResult>)
            requires
                old(s).kept(terms, first),
            ensures
                final(s).kept(terms, first),
                match out {
                    Offered::Done(r, rest) => exists|now: Instant|
                        clock.shows(now) && #[trigger] old(s)@.offered_drop(
                            terms,
                            tenant.0,
                            task,
                            strategy,
                            now,
                            r,
                            rest,
                            final(s)@,
                        ),
                    Offered::Ask(back, provider) => patient && back == task,
                },
                exists|k: &mut SchedulerState<T>, current: bool, now: Instant|
                    *k == *old(s) && clock.shows(now) && #[trigger] call_ensures(
                        SchedulerState::<T>::offer_drop,
                        (k, settings, tenant, task, strategy, &answer, current, patient, now),
                        out,
                    ),
            {
                let now = clock.now();
                let current = s.is_current(&answer);
                let out = s.offer_drop(
                    settings,
                    tenant,
                    task,
                    strategy,
                    &answer,
                    current,
                    patient,
                    now,
                );
                proof {
                    lemma_offered_drop(
                        first,
                        terms,
                        old(s)@,
                        tenant.0,
                        task,
                        strategy,
                        now,
                        out,
                        s@,
                    );
                }
                out
            };
        let out = self.state.with(step);
        proof {
            let s: &mut SchedulerState<T> = choose|s: &mut SchedulerState<T>|
                s.kept(terms, first) && call_ensures(step, (s,), out);
            let pre = s@;
            assert(self.may_be_in(pre));
            let (k, current, moment) = choose|
                k: &mut SchedulerState<T>,
                current: bool,
                now: Instant,
            |
                *k == *s && clock.shows(now) && #[trigger] call_ensures(
                    SchedulerState::<T>::offer_drop,
                    (k, settings, tenant, task, strategy, &answer, current, patient, now),
                    out,
                );
            assert(self.behind(*k));
            if out is Done {
                let r = out->Done_0;
                let rest = out->Done_1;
                assert(out == Offered::<T, EnqueueWithHandleResult>::Done(r, rest));
                let now = choose|now: Instant|
                    clock.shows(now) && #[trigger] pre.offered_drop(terms, tenant.0, task, strategy, now, r, rest, final(s)@);
                let quantum = choose|quantum: int|
                    pre.admits(tenant.0, terms.quantum, quantum) && (#[trigger] pre.enqueue_drop(
                        terms.limits,
                        tenant.0,
                        task,
                        strategy,
                        quantum,
                        now,
                    )).1 == r;
                assert(r == pre.enqueue_drop(
                    terms.limits,
                    tenant.0,
                    task,
                    strategy,
                    quantum,
                    now,
                ).1);
            }
        }
        out
    }

    /// Enqueue that waits for room, up to `wait`; the provider is asked as in
    /// `enqueue_reject_with_handle`. After as many rounds as a `u64` counts, the rest of
    /// the wait is left to the signal.
    fn enqueue_timeout_with_handle(&self, tenant: TenantKey, task: Task<T>, wait: Duration) -> (r:
        EnqueueWithHandleResult)
        ensures
            self.may_wait(tenant, task, wait, r),
    {
        let begin = self.clock.now();
        let deadline = begin.after(wait);
        let mut answer: Option<Answer> = None;
        let mut offer = task;
        let mut asks: u64 = u64::MAX;
        let mut rounds: u64 = u64::MAX;
        loop
            invariant
                offer == task,
                answer matches Some(a) ==> a.genuine(tenant),
                begin.nanos >= 0,
                self.shows(begin),
                ends(begin, wait, deadline),
            decreases rounds, asks,
        {
            let observed: u64 = self.work_signal.current();
            match self.offer_timed(tenant, offer, answer, asks > 0, begin, wait, deadline) {
                Offered::Done(attempt, rest) => {
                    let ghost undone = rest;
                    self.finish(rest);
                    match attempt {
                        TimedAttempt::Done(r) => {
                            assert(self.was_put_in_time(tenant, task, wait, r, undone));
                            return r;
                        },
                        TimedAttempt::Wait(back, left) => {
                            if rounds == 0 {
                                return self.await_room(tenant, back, begin, wait, deadline, left);
                            }
                            offer = back;
                            answer = None;
                            rounds -= 1;
                            self.work_signal.wait_for_change_timeout(observed, left);
                        },
                    }
                },
                Offered::Ask(back, provider) => {
                    offer = back;
                    answer = Answer::of(&provider, tenant);
                    asks -= 1;
                },
            }
        }
    }

    /// One attempt of a producer that waits for room; says whether it has to go on waiting.
    fn offer_once(
        &self,
        tenant: TenantKey,
        begin: Instant,
        wait: Duration,
        deadline: Instant,
        ticks: &mut Ticks,
        trial: &mut Trial<Task<T>, EnqueueWithHandleResult, Rest<T>>,
    ) -> (waits: bool)
        requires
            begin.nanos >= 0,
            self.shows(begin),
            ends(begin, wait, deadline),
            old(trial).input is Some,
            old(trial).result is None,
        ensures
            final(trial).may() == old(trial).may(),
            waits == final(trial).result is None,
            waits ==> final(trial).input == old(trial).input,
            final(trial).result matches Some(r) ==> self.may_wait(
                tenant,
                old(trial).input->0,
                wait,
                r,
            ),
    {
        let task = trial.input.take().unwrap();
        match self.offer_timed(tenant, task, None, false, begin, wait, deadline) {
            Offered::Done(attempt, rest) => {
                if rest.wake {
                    self.work_signal.notify_within(ticks);
                }
                let ghost left = rest;
                trial.rests.push(rest);
                match attempt {
                    TimedAttempt::Done(r) => {
                        assert(self.was_put_in_time(tenant, task, wait, r, left));
                        trial.result = Some(r);
                        false
                    },
                    TimedAttempt::Wait(back, _) => {
                        trial.input = Some(back);
                        true
                    },
                }
            },
            Offered::Ask(back, _) => {
                trial.input = Some(back);
                true
            },
        }
    }

    /// Enqueue that waits for room until `deadline`, the wait being left to the signal: for
    /// as long as there is time, and then until the clock says so too.
    fn await_room(
        &self,
        tenant: TenantKey,
        task: Task<T>,
        begin: Instant,
        wait: Duration,
        deadline: Instant,
        left: Duration,
    ) -> (r: EnqueueWithHandleResult)
        requires
            begin.nanos >= 0,
            self.shows(begin),
            ends(begin, wait, deadline),
        ensures
            self.may_wait(tenant, task, wait, r),
    {
        let ghost may = |r: EnqueueWithHandleResult| self.may_wait(tenant, task, wait, r);
        let trial: Trial<Task<T>, EnqueueWithHandleResult, Rest<T>> = Trial::new(
            Some(task),
            Ghost(may),
        );
        let ghost first = trial;
        let again = |
            ticks: &mut Ticks,
            x: &mut Trial<Task<T>, EnqueueWithHandleResult, Rest<T>>,
        | -> (waits: bool)
            requires
                old(x).result is None,
                old(x).input is Some,
            ensures
                old(x).follows(&first) ==> final(x).follows(&first),
                waits == final(x).result is None,
            { self.offer_once(tenant, begin, wait, deadline, ticks, x) };
        let (secs, nanos) = left.parts();
        let tried = self.work_signal.wait_for_result_until(trial, again, secs, nanos);
        if tried.result.is_some() {
            return tried.result.unwrap();
        }
        let further = |
            ticks: &mut Ticks,
            x: &mut Trial<Task<T>, EnqueueWithHandleResult, Rest<T>>,
        | -> (waits: bool)
            requires
                old(x).result is None,
                old(x).input is Some,
            ensures
                old(x).follows(&first) ==> final(x).follows(&first),
                waits == final(x).result is None,
            { self.offer_once(tenant, begin, wait, deadline, ticks, x) };
        self.work_signal.wait_for_result(tried, further).result.unwrap()
    }

    /// Offers the task once, under the lock.
    fn offer_timed(
        &self,
        tenant: TenantKey,
        task: Task<T>,
        answer: Option<Answer>,
        patient: bool,
        begin: Instant,
        wait: Duration,
        deadline: Instant,
    ) -> (out: Offered<T, TimedAttempt<T>>)
        requires
            answer matches Some(a) ==> a.genuine(tenant),
            begin.nanos >= 0,
            self.shows(begin),
            ends(begin, wait, deadline),
        ensures
            match out {
                Offered::Done(TimedAttempt::Done(r), rest) => self.can_wait(tenant, task, wait, r)
                    && self.was_put_in_time(tenant, task, wait, r, rest),
                Offered::Done(TimedAttempt::Wait(back, _), _) => back == task,
                Offered::Ask(back, provider) => patient && back == task,
            },
    {
        let settings = *self.state.settled();
        let ghost terms = settings;
        let ghost first = self.state.first();
        let clock = &self.clock;
        let step = |s: &mut SchedulerState<T>| -> (out: Offered<T, TimedAttempt<T>>)
            requires
                old(s).kept(terms, first),
            ensures
                final(s).kept(terms, first),
                match out {
                    Offered::Done(r, rest) => exists|now: Instant|
                        clock.tells(begin, now) && #[trigger] old(s)@.offered_timed(
                            terms,
                            tenant.0,
                            task,
                            now,
                            deadline,
                            r,
                            rest,
                            final(s)@,
                        ),
                    Offered::Ask(back, provider) => patient && back == task,
                },
                exists|k: &mut SchedulerState<T>, current: bool, now: Instant|
                    *k == *old(s) && clock.tells(begin, now) && #[trigger] call_ensures(
                        SchedulerState::<T>::offer_timed,
                        (k, settings, tenant, task, &answer, current, patient, now, deadline),
                        out,
                    ),
            {
                let now = clock.now_since(begin);
                let current = s.is_current(&answer);
                let out = s.offer_timed(
                    settings,
                    tenant,
                    task,
                    &answer,
                    current,
                    patient,
                    now,
                    deadline,
                );
                proof {
                    lemma_offered_timed(
                        first,
                        terms,
                        old(s)@,
                        tenant.0,
                        task,
                        now,
                        deadline,
                        out,
                        s@,
                    );
                }
                out
            };
        let out = self.state.with(step);
        proof {
            let s: &mut SchedulerState<T> = choose|s: &mut SchedulerState<T>|
                s.kept(terms, first) && call_ensures(step, (s,), out);
            let pre = s@;
            assert(self.may_be_in(pre));
            let (k, current, moment) = choose|
                k: &mut SchedulerState<T>,
                current: bool,
                now: Instant,
            |
                *k == *s && clock.tells(begin, now) && #[trigger] call_ensures(
                    SchedulerState::<T>::offer_timed,
                    (k, settings, tenant, task, &answer, current, patient, now, deadline),
                    out,
                );
            assert(self.behind(*k));
            if out is Done {
                let attempt = out->Done_0;
                let rest = out->Done_1;
                let now = choose|now: Instant|
                    clock.tells(begin, now) && #[trigger] pre.offered_timed(
                        terms,
                        tenant.0,
                        task,
                        now,
                        deadline,
                        attempt,
                        rest,
                        final(s)@,
                    );
                let quantum = choose|quantum: int|
                    pre.admits(tenant.0, terms.quantum, quantum) && (#[trigger] pre.timed_enqueue(
                        terms.limits,
                        tenant.0,
                        task,
                        quantum,
                        now,
                        deadline,
                    )).1 == attempt;
                lemma_timed_parts(
                    pre,
                    terms.limits,
                    tenant.0,
                    task,
                    quantum,
                    now,
                    deadline,
                );
                if let TimedAttempt::Done(r) = attempt {
                    assert(out == Offered::<T, TimedAttempt<T>>::Done(TimedAttempt::Done(r), rest));
                    assert(ends(begin, wait, deadline));
                    assert(pre.timed_enqueue(
                        terms.limits,
                        tenant.0,
                        task,
                        quantum,
                        now,
                        deadline,
                    ).1 == TimedAttempt::<T>::Done(r));
                }
            }
        }
        out
    }

    /// Enqueues a task under the tenant's policy; the handle can be used to cancel it.
    pub fn enqueue_with_handle(&self, tenant: TenantKey, task: Task<T>) -> (r:
        EnqueueWithHandleResult)
        ensures
            self.may_enqueue(tenant, task, r),
    {
        match self.backpressure_for(tenant) {
            BackpressurePolicy::Reject => self.enqueue_reject_with_handle(tenant, task),
            BackpressurePolicy::DropOldestPerTenant => self.enqueue_drop_with_handle(
                tenant,
                task,
                DropStrategy::Oldest,
            ),
            BackpressurePolicy::DropNewestPerTenant => self.enqueue_drop_with_handle(
                tenant,
                task,
                DropStrategy::Newest,
            ),
            BackpressurePolicy::Timeout { wait } => self.enqueue_timeout_with_handle(
                tenant,
                task,
                wait,
            ),
        }
    }

    /// Enqueues a task under the tenant's policy.
    pub fn enqueue(&self, tenant: TenantKey, task: Task<T>) -> (r: EnqueueResult)
        ensures
            self.may_enqueue_plainly(tenant, task, r),
    {
        self.enqueue_with_handle(tenant, task).without_handle()
    }

    /// Cancels a pending task.
    pub fn cancel(&self, handle: TaskHandle) -> (r: CancelResult)
        ensures
            self.may_cancel(handle, r),
    {
        let ghost terms = self.state.terms();
        let ghost first = self.state.first();
        let step = |s: &mut SchedulerState<T>| -> (out: (CancelResult, Rest<T>))
            requires
                old(s).kept(terms, first),
            ensures
                final(s).kept(terms, first),
                out.0 == if old(s)@.books.pending.contains(handle.0) {
                    CancelResult::Cancelled
                } else {
                    CancelResult::NotFound
                },
                exists|k: &mut SchedulerState<T>|
                    *k == *old(s) && #[trigger] call_ensures(
                        SchedulerState::<T>::cancel,
                        (k, handle),
                        out.0,
                    ),
                out.0 is Cancelled ==> out.1.wake,
            {
                proof {
                    capacity::lemma_cancel_within(s@, handle.0, terms.limits);
                    lemma_step(first, terms, s@, Step::Cancel { id: handle.0 });
                    reveal(laws::apply);
                }
                let r = s.cancel(handle);
                (r, s.clear())
            };
        let out = self.state.with(step);
        proof {
            let s: &mut SchedulerState<T> = choose|s: &mut SchedulerState<T>|
                s.kept(terms, first) && call_ensures(step, (s,), out);
            let k: &mut SchedulerState<T> = choose|k: &mut SchedulerState<T>|
                *k == *s && #[trigger] call_ensures(
                    SchedulerState::<T>::cancel,
                    (k, handle),
                    out.0,
                );
            assert(self.behind(*k));
            assert(self.may_be_in(s@));
        }
        let (r, rest) = out;
        self.finish(rest);
        r
    }

    /// Snapshot of the metrics.
    pub fn stats(&self) -> (stats: SchedulerStats)
        ensures
            self.may_report(stats),
            stats.max_global == self.settings().limits.max_global,
            stats.queue_len_estimate <= stats.max_global,
            stats.top_tenants@.len() <= self.settings().top_capacity,
    {
        let settings = *self.state.settled();
        let ghost terms = settings;
        let ghost first = self.state.first();
        let step = |s: &mut SchedulerState<T>| -> (stats: SchedulerStats)
            requires
                old(s).kept(terms, first),
            ensures
                final(s).kept(terms, first),
                old(s)@.reports(terms.limits, stats),
                call_ensures(SchedulerState::<T>::stats, (&*old(s), terms.limits), stats),
            { s.stats(settings.limits) };
        let stats = self.state.with(step);
        proof {
            let s: &mut SchedulerState<T> = choose|s: &mut SchedulerState<T>|
                s.kept(terms, first) && call_ensures(step, (s,), stats);
            assert(self.behind(*s));
            assert(call_ensures(SchedulerState::<T>::stats, (&*s, terms.limits), stats));
            assert(self.may_be_in(s@));
        }
        stats
    }

    /// Requests shutdown.
    fn set_shutdown_mode(&self, mode: CloseMode)
        ensures
            self.was_closed(mode),
    {
        let ghost terms = self.state.terms();
        let ghost first = self.state.first();
        let step = |s: &mut SchedulerState<T>| -> (rest: Rest<T>)
            requires
                old(s).kept(terms, first),
            ensures
                final(s).kept(terms, first),
                final(s)@.shutdown == old(s)@.shutdown.closed_with(mode),
                rest.wake == (old(s)@.books.wake || final(s)@.shutdown != old(s)@.shutdown),
                exists|k: &mut SchedulerState<T>|
                    *k == *old(s) && #[trigger] call_ensures(
                        SchedulerState::<T>::set_shutdown_mode,
                        (k, mode),
                        (),
                    ),
            {
                proof {
                    lemma_step(first, terms, s@, Step::Close { mode });
                    reveal(laws::apply);
                }
                s.set_shutdown_mode(mode);
                s.clear()
            };
        let rest = self.state.with(step);
        let ghost left = rest;
        self.finish(rest);
        proof {
            let s: &mut SchedulerState<T> = choose|s: &mut SchedulerState<T>|
                s.kept(terms, first) && call_ensures(step, (s,), left);
            let k: &mut SchedulerState<T> = choose|k: &mut SchedulerState<T>|
                *k == *s && #[trigger] call_ensures(
                    SchedulerState::<T>::set_shutdown_mode,
                    (k, mode),
                    (),
                );
            assert(self.behind(*k));
        }
    }

    /// Closes at once, as `close_immediate` does.
    pub fn close(&self)
        ensures
            self.was_closed(CloseMode::Immediate),
    {
        self.close_immediate();
    }

    /// Stops accepting and handing out tasks; waiting consumers are told.
    pub fn close_immediate(&self)
        ensures
            self.was_closed(CloseMode::Immediate),
    {
        self.set_shutdown_mode(CloseMode::Immediate);
    }

    /// Stops accepting tasks; those pending are handed out still.
    pub fn close_drain(&self)
        ensures
            self.was_closed(CloseMode::Drain),
    {
        self.set_shutdown_mode(CloseMode::Drain);
    }

    /// Closes in the given mode.
    pub fn close_with_mode(&self, mode: CloseMode)
        ensures
            self.was_closed(mode),
    {
        self.set_shutdown_mode(mode);
    }

    /// Fixes the tenant's quantum, to at least one.
    pub fn set_tenant_quantum(&self, tenant: TenantKey, quantum: u64)
        ensures
            self.was_fixed(tenant, quantum),
    {
        let ghost terms = self.state.terms();
        let ghost first = self.state.first();
        let step = |s: &mut SchedulerState<T>|
            requires
                old(s).kept(terms, first),
            ensures
                final(s).kept(terms, first),
                final(s)@ == old(s)@.with_fixed(tenant.0, quantum).with_quantum(
                    tenant.0,
                    model::effective_quantum(Some(quantum), None, 0),
                ),
                exists|k: &mut SchedulerState<T>|
                    *k == *old(s) && #[trigger] call_ensures(
                        SchedulerState::<T>::set_tenant_quantum,
                        (k, tenant, quantum),
                        (),
                    ),
            {
                let ghost fixed = s@.with_fixed(tenant.0, quantum);
                proof {
                    capacity::lemma_with_quantum_within(
                        fixed,
                        tenant.0,
                        model::effective_quantum(Some(quantum), None, 0),
                        terms.limits,
                    );
                    let fix = Step::Fix { tenant: tenant.0, quantum };
                    laws::lemma_reached_next(first@, terms.limits, s@, fix);
                    reveal(laws::apply);
                }
                s.set_tenant_quantum(tenant, quantum);
            };
        self.state.with(step);
        proof {
            let s: &mut SchedulerState<T> = choose|s: &mut SchedulerState<T>|
                s.kept(terms, first) && call_ensures(step, (s,), ());
            let k: &mut SchedulerState<T> = choose|k: &mut SchedulerState<T>|
                *k == *s && #[trigger] call_ensures(
                    SchedulerState::<T>::set_tenant_quantum,
                    (k, tenant, quantum),
                    (),
                );
            assert(self.behind(*k));
        }
    }

    /// Forgets the tenant's fixed quantum. A provider is asked while the lock is free;
    /// if it is replaced meanwhile, the other one is asked by whoever replaces it.
    pub fn clear_tenant_quantum(&self, tenant: TenantKey)
        ensures
            exists|provider: Option<QuantumProvider>| #[trigger]
                self.was_released(tenant, provider) && (provider is Some ==> self.was_granted(
                    tenant,
                    provider,
                )),
    {
        let settings = *self.state.settled();
        let ghost terms = settings;
        let ghost first = self.state.first();
        let step = |s: &mut SchedulerState<T>| -> (provider: Option<QuantumProvider>)
            requires
                old(s).kept(terms, first),
            ensures
                final(s).kept(terms, first),
                provider == old(s)@.provider,
                exists|k: &mut SchedulerState<T>|
                    *k == *old(s) && #[trigger] call_ensures(
                        SchedulerState::<T>::release,
                        (k, tenant, terms.quantum),
                        provider,
                    ),
            {
                let ghost loose = s@.without_fixed(tenant.0);
                let ghost base = model::effective_quantum(None, None, terms.quantum);
                proof {
                    let release = Step::Release { tenant: tenant.0 };
                    laws::lemma_reached_next(first@, terms.limits, s@, release);
                    reveal(laws::apply);
                    let grant = Step::Grant { tenant: tenant.0, quantum: base };
                    laws::lemma_reached_next(first@, terms.limits, loose, grant);
                    capacity::lemma_with_quantum_within(loose, tenant.0, base, terms.limits);
                }
                s.release(tenant, settings.quantum)
            };
        let provider = self.state.with(step);
        proof {
            let s: &mut SchedulerState<T> = choose|s: &mut SchedulerState<T>|
                s.kept(terms, first) && call_ensures(step, (s,), provider);
            let k: &mut SchedulerState<T> = choose|k: &mut SchedulerState<T>|
                *k == *s && #[trigger] call_ensures(
                    SchedulerState::<T>::release,
                    (k, tenant, terms.quantum),
                    provider,
                );
            assert(self.behind(*k));
            assert(self.was_released(tenant, provider));
        }
        let answer = Answer::of(&provider, tenant);
        if answer.is_some() {
            self.grant(tenant, answer);
        }
    }

    /// Grants the tenant, if known, what the provider said, if it still counts.
    fn grant(&self, tenant: TenantKey, answer: Option<Answer>)
        requires
            answer is Some,
            answer->0.genuine(tenant),
        ensures
            self.was_granted(tenant, answer->0.provider),
    {
        let settings = *self.state.settled();
        let ghost terms = settings;
        let ghost first = self.state.first();
        let step = |s: &mut SchedulerState<T>|
            requires
                old(s).kept(terms, first),
            ensures
                final(s).kept(terms, first),
                exists|k: &mut SchedulerState<T>, current: bool, done: bool|
                    *k == *old(s) && #[trigger] call_ensures(
                        SchedulerState::<T>::grant,
                        (k, tenant, terms.quantum, &answer, current),
                        done,
                    ) && compared(answer->0.provider, old(s)@.provider, current),
            {
                let ghost quantum = model::effective_quantum(
                    None,
                    Some(answer->0.quantum),
                    terms.quantum,
                );
                proof {
                    let grant = Step::Grant { tenant: tenant.0, quantum };
                    laws::lemma_reached_next(first@, terms.limits, s@, grant);
                    reveal(laws::apply);
                    capacity::lemma_with_quantum_within(s@, tenant.0, quantum, terms.limits);
                }
                let current = s.is_current(&answer);
                let _done = s.grant(tenant, settings.quantum, &answer, current);
            };
        self.state.with(step);
        proof {
            let s: &mut SchedulerState<T> = choose|s: &mut SchedulerState<T>|
                s.kept(terms, first) && call_ensures(step, (s,), ());
            let (k, current, done) = choose|
                k: &mut SchedulerState<T>,
                current: bool,
                done: bool,
            |
                *k == *s && #[trigger] call_ensures(
                    SchedulerState::<T>::grant,
                    (k, tenant, terms.quantum, &answer, current),
                    done,
                ) && compared(answer->0.provider, s@.provider, current);
            assert(self.behind(*k));
        }
    }

    /// Sets or removes the provider of quanta; every known tenant is granted anew. A
    /// provider is asked while the lock is free.
    pub fn set_quantum_provider(&self, provider: Option<QuantumProvider>)
        ensures
            self.was_given(provider),
    {
        if provider.is_none() {
            self.remove_quantum_provider();
            return;
        }
        let out = self.install(provider);
        let tenants = &out.1;
        for i in 0..tenants.len()
            invariant
                *tenants == out.1,
                forall|j: int|
                    0 <= j < i ==> self.was_asked_about(TenantKey(#[trigger] tenants@[j])),
        {
            let tenant = TenantKey(tenants[i]);
            let asked = self.asked(tenant);
            let answer = Answer::of(&asked, tenant);
            if answer.is_some() {
                self.grant(tenant, answer);
            }
            assert(self.was_asked_about(tenant));
        }
        proof {
            assert forall|t: u64| out.1@.contains(t) implies #[trigger] self.was_asked_about(
                TenantKey(t),
            ) by {
                let j = choose|j: int| 0 <= j < tenants@.len() && tenants@[j] == t;
                assert(self.was_asked_about(TenantKey(tenants@[j])));
            }
            assert(self.was_installed(provider, out));
        }
    }

    /// Who is to be asked for the tenant's quantum now: nobody, if it is fixed.
    fn asked(&self, tenant: TenantKey) -> (provider: Option<QuantumProvider>)
        ensures
            exists|k: &SchedulerState<T>|
                self.behind(*k) && #[trigger] call_ensures(
                    SchedulerState::<T>::asked,
                    (k, tenant),
                    provider,
                ),
            exists|pre: StateView<T>| #[trigger]
                self.may_be_in(pre) && provider == if pre.quanta.contains_key(tenant.0) {
                    None
                } else {
                    pre.provider
                },
    {
        let ghost terms = self.state.terms();
        let ghost first = self.state.first();
        let step = |s: &mut SchedulerState<T>| -> (provider: Option<QuantumProvider>)
            requires
                old(s).kept(terms, first),
            ensures
                final(s).kept(terms, first),
                provider == if old(s)@.quanta.contains_key(tenant.0) {
                    None
                } else {
                    old(s)@.provider
                },
                call_ensures(SchedulerState::<T>::asked, (&*old(s), tenant), provider),
            { s.asked(tenant) };
        let provider = self.state.with(step);
        proof {
            let s: &mut SchedulerState<T> = choose|s: &mut SchedulerState<T>|
                s.kept(terms, first) && call_ensures(step, (s,), provider);
            assert(self.behind(*s));
            assert(call_ensures(SchedulerState::<T>::asked, (&*s, tenant), provider));
            assert(self.may_be_in(s@));
        }
        provider
    }

    /// Has somebody else asked for quanta from now on; says who was asked before, and for
    /// which tenants the quantum is to be asked.
    fn install(&self, provider: Option<QuantumProvider>) -> (out: (
        Option<QuantumProvider>,
        Vec<u64>,
    ))
        ensures
            self.was_installed(provider, out),
            exists|pre: StateView<T>| #[trigger]
                self.may_be_in(pre) && out.0 == pre.provider && forall|t: u64|
                    out.1@.contains(t) <==> #[trigger] pre.depends(t),
    {
        let ghost terms = self.state.terms();
        let ghost first = self.state.first();
        let step = |s: &mut SchedulerState<T>| -> (out: (Option<QuantumProvider>, Vec<u64>))
            requires
                old(s).kept(terms, first),
            ensures
                final(s).kept(terms, first),
                final(s)@ == old(s)@.with_provider(provider),
                out.0 == old(s)@.provider,
                forall|t: u64|
                    out.1@.contains(t) <==> #[trigger] old(s)@.depends(t),
                exists|k: &mut SchedulerState<T>|
                    *k == *old(s) && #[trigger] call_ensures(
                        SchedulerState::<T>::install,
                        (k, provider),
                        out,
                    ),
            {
                proof {
                    let install = Step::Install { provider };
                    laws::lemma_reached_next(first@, terms.limits, s@, install);
                    reveal(laws::apply);
                }
                s.install(provider)
            };
        let out = self.state.with(step);
        proof {
            let s: &mut SchedulerState<T> = choose|s: &mut SchedulerState<T>|
                s.kept(terms, first) && call_ensures(step, (s,), out);
            let k: &mut SchedulerState<T> = choose|k: &mut SchedulerState<T>|
                *k == *s && #[trigger] call_ensures(
                    SchedulerState::<T>::install,
                    (k, provider),
                    out,
                );
            assert(self.behind(*k));
            assert(self.may_be_in(s@));
        }
        out
    }

    /// Has nobody asked for quanta from now on; every known tenant is granted anew.
    fn remove_quantum_provider(&self)
        ensures
            self.was_given(None),
    {
        let settings = *self.state.settled();
        let ghost terms = settings;
        let ghost first = self.state.first();
        let step = |s: &mut SchedulerState<T>| -> (previous: Option<QuantumProvider>)
            requires
                old(s).kept(terms, first),
            ensures
                final(s).kept(terms, first),
                old(s)@.with_provider(None).regranted(final(s)@, terms.quantum),
                exists|k: &mut SchedulerState<T>|
                    *k == *old(s) && #[trigger] call_ensures(
                        SchedulerState::<T>::set_quantum_provider,
                        (k, None, terms.quantum),
                        previous,
                    ),
            {
                let ghost alone = s@.with_provider(None);
                proof {
                    let install = Step::Install { provider: None };
                    laws::lemma_reached_next(first@, terms.limits, s@, install);
                    reveal(laws::apply);
                }
                let previous = s.set_quantum_provider(None, settings.quantum);
                proof {
                    capacity::lemma_same_but_quanta_within(alone, s@, terms.limits);
                    laws::lemma_reached_further(first@, terms.limits, alone, s@);
                }
                previous
            };
        let previous = self.state.with(step);
        proof {
            let s: &mut SchedulerState<T> = choose|s: &mut SchedulerState<T>|
                s.kept(terms, first) && call_ensures(step, (s,), previous);
            let k: &mut SchedulerState<T> = choose|k: &mut SchedulerState<T>|
                *k == *s && #[trigger] call_ensures(
                    SchedulerState::<T>::set_quantum_provider,
                    (k, None, terms.quantum),
                    previous,
                );
            assert(self.behind(*k));
        }
    }

    /// Enqueues of a tenant between two periodic compactions of its queues.
    pub fn debug_enqueue_purge_interval(&self) -> (n: u32)
        ensures
            n == PURGE_INTERVAL,
    {
        PURGE_INTERVAL
    }

    /// Periodic compactions so far.
    pub fn debug_enqueue_purge_runs(&self) -> (n: u64)
        ensures
            exists|pre: StateView<T>| #[trigger]
                self.may_be_in(pre) && n == pre.books.purge_runs,
            exists|k: &SchedulerState<T>|
                self.behind(*k) && #[trigger] call_ensures(
                    SchedulerState::<T>::purge_runs,
                    (k,),
                    n,
                ),
    {
        let ghost terms = self.state.terms();
        let ghost first = self.state.first();
        let step = |s: &mut SchedulerState<T>| -> (n: u64)
            requires
                old(s).kept(terms, first),
            ensures
                final(s).kept(terms, first),
                n == old(s)@.books.purge_runs,
                exists|k: &SchedulerState<T>|
                    *k == *old(s) && #[trigger] call_ensures(
                        SchedulerState::<T>::purge_runs,
                        (k,),
                        n,
                    ),
            { s.purge_runs() };
        let n: u64 = self.state.with(step);
        proof {
            let s: &mut SchedulerState<T> = choose|s: &mut SchedulerState<T>|
                s.kept(terms, first) && call_ensures(step, (s,), n);
            assert(self.may_be_in(s@));
            let k = choose|k: &SchedulerState<T>|
                *k == *s && #[trigger] call_ensures(SchedulerState::<T>::purge_runs, (k,), n);
            assert(self.behind(*k));
        }
        n
    }
}

} // verus!
