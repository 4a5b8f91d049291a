//! The scheduler's state and the operations on it, one at a time.
use std::collections::HashMap;

use vstd::prelude::*;

use crate::api::{
    CancelResult, CloseMode, DequeueResult, EnqueueRejectReason, EnqueueWithHandleResult, Priority,
    QuantumProvider, SchedulerStats, Task, TaskHandle, TenantKey,
};
use crate::books::Books;
use crate::capacity;
use crate::fairness;
use crate::invariants;
use crate::laws;
use crate::metrics::percentile;
use crate::model;
use crate::model::{
    DropStrategy, EnqueueAttempt, Limits, QueueEntry, Refused, Settings, ShardView, ShutdownState,
    StateView, TenantView, TimedAttempt, LANES,
};
use crate::ring::ActiveRing;
use crate::state::{Shard, TenantState};
use crate::sync::{same_provider, Guarded};
use crate::time::Instant;

verus! {

broadcast use vstd::std_specs::hash::group_hash_axioms;

/// Budget that a tenant is granted per round: its fixed quantum, or else the one
/// that a provider gave, or else the base.
pub fn effective_quantum(fixed: Option<u64>, provided: Option<u64>, base: u64) -> (quantum: i64)
    ensures
        quantum == model::effective_quantum(fixed, provided, base),
        1 <= quantum,
{
    let raw: u64 = match fixed {
        Some(value) => value,
        None => match provided {
            Some(value) => value,
            None => base,
        },
    };
    if raw == 0 {
        1
    } else if raw > i64::MAX as u64 {
        i64::MAX
    } else {
        raw as i64
    }
}

/// What follows from a refusal for want of room at `now` of one who waits until
/// `deadline`.
pub fn after_refusal(now: Instant, deadline: Instant) -> (next: Refused)
    ensures
        next == model::after_refusal(now, deadline),
{
    match now.until(deadline) {
        None => Refused::GiveUp,
        Some(left) => Refused::Wait(left),
    }
}

/// A further handle to the same provider.
pub fn shared(provider: &Option<QuantumProvider>) -> (other: Option<QuantumProvider>)
    ensures
        other == *provider,
{
    match provider {
        Some(source) => {
            let handle = source.clone();
            let other = Some(handle);
            other
        },
        None => None,
    }
}

/// Whether the providers are one and the same was looked at, with this outcome; nobody is
/// not the same as anybody.
pub closed spec fn compared(
    a: Option<QuantumProvider>,
    b: Option<QuantumProvider>,
    same: bool,
) -> bool {
    match (a, b) {
        (Some(x), Some(y)) => call_ensures(same_provider, (&x, &y), same),
        _ => !same,
    }
}

/// Providers that were found to be one and the same are.
pub proof fn law_found_the_same(a: Option<QuantumProvider>, b: Option<QuantumProvider>)
    requires
        compared(a, b, true),
    ensures
        a is Some,
        a == b,
{
}

/// What a provider said of a tenant's quantum.
pub struct Answer {
    /// Who was asked.
    pub provider: Option<QuantumProvider>,
    /// What was said.
    pub quantum: u64,
}

impl Answer {
    /// There is a provider that may say this of the tenant.
    pub open spec fn genuine(self, tenant: TenantKey) -> bool {
        self.provider matches Some(provider) && provider.may_grant(tenant, self.quantum)
    }

    /// Asks the provider, if there is one, for the tenant's quantum.
    pub fn of(provider: &Option<QuantumProvider>, tenant: TenantKey) -> (answer: Option<Answer>)
        ensures
            match answer {
                Some(a) => a.provider == *provider && a.genuine(tenant),
                None => *provider is None,
            },
    {
        match provider {
            Some(source) => {
                let quantum: u64 = source.quantum(tenant);
                Some(Answer { provider: shared(provider), quantum })
            },
            None => None,
        }
    }

    /// Whether it was this provider who was asked.
    fn is_of(&self, provider: &Option<QuantumProvider>) -> (b: bool)
        ensures
            b ==> *provider is Some && self.provider == *provider,
            compared(self.provider, *provider, b),
    {
        match (&self.provider, provider) {
            (Some(asked), Some(current)) => same_provider(asked, current),
            _ => false,
        }
    }
}

/// What an operation leaves to be done once nobody is kept waiting by it: threads are to
/// be woken, and what is not needed any more is to go.
pub struct Rest<T> {
    /// Waiting threads are to be woken.
    pub wake: bool,
    /// Entries that have left the queues and were not handed out.
    pub removed: Vec<QueueEntry<T>>,
    /// The task that was offered, if it was not accepted.
    pub back: Option<Task<T>>,
}

impl<T> Rest<T> {
    /// It is what is left to be done in the state, and the task.
    pub open spec fn is_of(self, s: StateView<T>, back: Option<Task<T>>) -> bool {
        &&& self.wake == s.books.wake
        &&& self.removed@ == s.books.removed
        &&& self.back == back
    }
}

/// What becomes of a task that is offered to the scheduler.
pub enum Offered<T, R> {
    /// This is the outcome, and what is left to be done.
    Done(R, Rest<T>),
    /// Here is the task again: the provider has to be asked first.
    Ask(Task<T>, Option<QuantumProvider>),
}

/// Everything a scheduler keeps: shards, turn order, bookkeeping and settings that
/// can change while it runs.
pub struct SchedulerState<T> {
    shards: Vec<Shard<T>>,
    active_shards: ActiveRing<usize>,
    shard_active: Vec<bool>,
    books: Books<T>,
    shutdown: ShutdownState,
    tenant_quantum: HashMap<u64, u64>,
    quantum_provider: Option<QuantumProvider>,
}

impl<T> View for SchedulerState<T> {
    type V = StateView<T>;

    closed spec fn view(&self) -> StateView<T> {
        StateView {
            shards: self.shards@.map_values(|s: Shard<T>| s@),
            ready: self.active_shards@,
            shard_active: self.shard_active@,
            books: self.books@,
            shutdown: self.shutdown,
            quanta: self.tenant_quantum@,
            provider: self.quantum_provider,
        }
    }
}

impl<T> Guarded for SchedulerState<T> {
    type Terms = Settings;

    open spec fn kept(&self, settings: Settings, first: SchedulerState<T>) -> bool {
        &&& self.wf()
        &&& self@.kept(settings)
        &&& laws::reached(first@, settings.limits, self@)
        &&& self@.books.removed.len() == 0
    }
}

impl<T> SchedulerState<T> {
    /// The containers are well formed.
    pub closed spec fn wf(&self) -> bool {
        &&& self.active_shards.wf()
        &&& forall|i: int| 0 <= i < self.shards@.len() ==> (#[trigger] self.shards@[i]).wf()
    }

    /// What is true of the state between operations.
    pub open spec fn inv(&self) -> bool {
        self.wf() && self@.inv()
    }

    /// A state in which nothing was ever queued.
    pub fn new(
        shards: usize,
        top_capacity: usize,
        tenant_quantum: HashMap<u64, u64>,
        quantum_provider: Option<QuantumProvider>,
    ) -> (s: SchedulerState<T>)
        requires
            shards >= 1,
        ensures
            s.inv(),
            s@ == StateView::<T>::initial(
                shards as nat,
                top_capacity as nat,
                tenant_quantum@,
                quantum_provider,
            ),
    {
        let mut all: Vec<Shard<T>> = Vec::new();
        let mut shard_active: Vec<bool> = Vec::new();
        for i in 0..shards
            invariant
                all@.len() == i,
                shard_active@.len() == i,
                forall|j: int|
                    0 <= j < i ==> (#[trigger] all@[j]).wf() && all@[j]@ == ShardView::<T>::empty(),
                forall|j: int| 0 <= j < i ==> !#[trigger] shard_active@[j],
        {
            all.push(Shard::new());
            shard_active.push(false);
        }
        let s = SchedulerState {
            shards: all,
            active_shards: ActiveRing::new(),
            shard_active,
            books: Books::new(top_capacity),
            shutdown: ShutdownState::Open,
            tenant_quantum,
            quantum_provider,
        };
        proof {
            let start = StateView::<T>::initial(
                shards as nat,
                top_capacity as nat,
                tenant_quantum@,
                quantum_provider,
            );
            assert(s@.shards =~= start.shards);
            assert(s@.shard_active =~= start.shard_active);
            invariants::lemma_initial::<T>(
                shards as nat,
                top_capacity as nat,
                tenant_quantum@,
                quantum_provider,
            );
        }
        s
    }

    /// The shard that looks after the tenant.
    fn shard_index(&self, tenant: u64) -> (i: usize)
        requires
            self@.shards.len() >= 1,
        ensures
            i == self@.shard_index(tenant),
            i < self@.shards.len(),
    {
        let count: usize = self.shards.len();
        let i: usize = #[verifier::truncate]
        (tenant as usize) % count;
        i
    }

    /// An attempt to dequeue at `now`.
    pub fn try_dequeue(&mut self, now: Instant) -> (r: DequeueResult<T>)
        requires
            old(self).inv(),
        ensures
            final(self).inv(),
            final(self)@ == old(self)@.dequeue(now).0,
            r == final(self)@.answer(old(self)@.dequeue(now).1),
    {
        proof {
            invariants::lemma_dequeue(self@, now);
        }
        if self.shutdown == ShutdownState::Immediate {
            return DequeueResult::Closed;
        }
        let mut remaining: usize = self.active_shards.len();
        while remaining > 0 && !self.active_shards.is_empty()
            invariant
                self.inv(),
                self@.sweep(remaining as nat, now) == old(self)@.dequeue(now),
                old(self)@.dequeue(now).0.inv(),
            decreases remaining,
        {
            let ghost before = self@;
            proof {
                invariants::lemma_shard_turn(before, now);
            }
            remaining -= 1;
            let found = self.shard_turn(now);
            if let Some((tenant, entry)) = found {
                return DequeueResult::Task { tenant: TenantKey(tenant), task: entry.task };
            }
        }
        if self.is_finished() {
            DequeueResult::Closed
        } else {
            DequeueResult::Empty
        }
    }

    /// A turn of the shard in front.
    fn shard_turn(&mut self, now: Instant) -> (found: Option<(u64, QueueEntry<T>)>)
        requires
            old(self).inv(),
            old(self)@.ready.len() > 0,
        ensures
            final(self).inv(),
            (final(self)@, found) == old(self)@.shard_turn(now),
    {
        let ghost before = self@;
        let i: usize = self.active_shards.pop_front().unwrap();
        proof {
            assert(i < before.shards.len());
            invariants::lemma_sound(before.shards[i as int], before.books.home, i as int, before.shards.len());
            invariants::lemma_shard_turn(before, now);
        }
        let found = self.shards[i].try_dequeue(&mut self.books, now);
        if self.shards[i].has_work() {
            self.active_shards.push_back(i);
        } else {
            self.shard_active[i] = false;
        }
        proof {
            assert(self@.shards =~= before.shard_turn(now).0.shards);
            assert(self@.shard_active =~= before.shard_turn(now).0.shard_active);
            assert(self@ =~= before.shard_turn(now).0);
        }
        found
    }

    /// Attempts to dequeue until one brings a task, or none is pending: what is pending is
    /// paid for before long, for with each attempt that brings nothing its tenant earns its
    /// quantum.
    pub fn dequeue_or_idle(&mut self, limits: Limits, now: Instant) -> (r: DequeueResult<T>)
        requires
            old(self).inv(),
            old(self)@.within(limits),
        ensures
            final(self).inv(),
            exists|pre: StateView<T>|
                laws::leads_to(old(self)@, limits, pre) && r == (#[trigger] pre.dequeue(
                    now,
                )).0.answer(pre.dequeue(now).1) && final(self)@ == pre.dequeue(now).0,
            r is Empty ==> final(self)@.books.stats.queue_len_estimate == 0,
            exists|n: nat|
                {
                    let pre = #[trigger] fairness::after_attempts(old(self)@, n, now);
                    &&& fairness::all_fail(old(self)@, n, now)
                    &&& r == pre.dequeue(now).0.answer(pre.dequeue(now).1)
                    &&& final(self)@ == pre.dequeue(now).0
                },
    {
        let ghost start = self@;
        let ghost mut pre = self@;
        let ghost mut tried: nat = 0;
        proof {
            laws::lemma_reached_start(start, limits);
        }
        let mut r = self.try_dequeue(now);
        let ghost mut at: (u64, int) = (0, 0);
        let ghost mut entry: Option<QueueEntry<T>> = None;
        proof {
            if r is Empty && self@.books.stats.queue_len_estimate > 0 {
                at = fairness::lemma_pending_is_live(pre, now);
                entry = fairness::next_live(self@.tenant(at.0).lanes[at.1].queue, self@.books, now);
            }
        }
        while matches!(r, DequeueResult::Empty) && self.queue_len() > 0
            invariant
                self.inv(),
                start == old(self)@,
                laws::leads_to(start, limits, pre),
                r == pre.dequeue(now).0.answer(pre.dequeue(now).1),
                self@ == pre.dequeue(now).0,
                pre == fairness::after_attempts(start, tried, now),
                fairness::all_fail(start, tried, now),
                r is Empty && self@.books.stats.queue_len_estimate > 0 ==> {
                    &&& entry is Some
                    &&& self@.knows(at.0)
                    &&& 0 <= at.1 < LANES
                    &&& fairness::next_live(
                        self@.tenant(at.0).lanes[at.1].queue,
                        self@.books,
                        now,
                    ) == entry
                },
            decreases
                    fairness::turns_to_earn(
                        self@.tenant(at.0).lanes[at.1].deficit,
                        self@.tenant(at.0).quantum,
                        model::budget(entry->0.task.cost as int),
                    ),
        {
            let ghost before = self@;
            proof {
                capacity::lemma_dequeue_within(pre, limits, now);
                laws::lemma_reached_next(start, limits, pre, laws::Step::Dequeue { now });
                reveal(laws::apply);
                assert(laws::leads_to(start, limits, before));
                assert(pre.dequeue(now).1 is None);
                assert(fairness::all_fail(start, tried + 1, now)) by {
                    assert forall|k: nat| k < tried + 1 implies (
                    #[trigger] fairness::after_attempts(start, k, now)).dequeue(now).1 is None by {
                        if k == tried {
                            assert(fairness::after_attempts(start, k, now) == pre);
                        }
                    }
                }
                fairness::lemma_one_attempt_more(start, tried, now);
                pre = before;
                tried = tried + 1;
            }
            r = self.try_dequeue(now);
            assert(r == pre.dequeue(now).0.answer(pre.dequeue(now).1));
            match &r {
                DequeueResult::Empty => {},
                _ => {
                    return r;
                },
            }
            proof {
                fairness::lemma_empty_earns(before, at.0, at.1, entry->0, now);
            }
        }
        assert(r == pre.dequeue(now).0.answer(pre.dequeue(now).1));
        r
    }

    /// Whether nothing more will be handed out.
    pub fn is_finished(&self) -> (b: bool)
        ensures
            b == self@.finished(),
    {
        match self.shutdown {
            ShutdownState::Open => false,
            ShutdownState::Drain => self.books.queue_len() == 0,
            ShutdownState::Immediate => true,
        }
    }

    /// Whether new tasks are accepted.
    pub fn is_accepting(&self) -> (b: bool)
        ensures
            b == (self@.shutdown == ShutdownState::Open),
    {
        self.shutdown == ShutdownState::Open
    }

    /// Whether the tenant was seen before.
    pub fn knows(&self, tenant: u64) -> (b: bool)
        requires
            self.inv(),
        ensures
            b == self@.knows(tenant),
    {
        let i: usize = self.shard_index(tenant);
        self.shards[i].tenant(tenant).is_some()
    }

    /// Makes the tenant known and tidies its queues; says whether the tenant is at
    /// its limit all the same.
    fn prepare(&mut self, limits: Limits, tenant: u64, quantum: i64, now: Instant) -> (full: bool)
        requires
            old(self).inv(),
            1 <= quantum,
        ensures
            final(self).inv(),
            final(self)@ == old(self)@.prepared(limits, tenant, quantum as int, now),
            full == final(self)@.tenant(tenant).full(limits),
    {
        let ghost before = self@;
        proof {
            invariants::lemma_prepared(before, limits, tenant, quantum as int, now);
        }
        let i: usize = self.shard_index(tenant);
        proof {
            invariants::lemma_tenant_or_fresh(
                before.shards[i as int],
                before.books.home,
                i as int,
                before.shards.len(),
                tenant,
                quantum as int,
            );
        }
        let mut state = match self.shards[i].take_tenant(tenant) {
            Some(state) => state,
            None => TenantState::new(quantum),
        };
        state.tidy(&mut self.books, limits, now);
        let full = state.is_full(limits);
        self.shards[i].put_tenant(tenant, state);
        proof {
            let after = before.prepared(limits, tenant, quantum as int, now);
            assert(self@.shards[i as int].tenants =~= after.shards[i as int].tenants);
            assert(self@.shards =~= after.shards);
            assert(self@ =~= after);
        }
        full
    }

    /// Appends the task to its lane.
    fn append_task(&mut self, tenant: u64, task: Task<T>, own_slot: bool) -> (handle: TaskHandle)
        requires
            old(self).wf(),
            old(self)@.shards.len() >= 1,
            old(self)@.shard_active.len() == old(self)@.shards.len(),
            old(self)@.knows(tenant),
            old(self)@.books.last_id < u64::MAX,
            own_slot ==> old(self)@.books.stats.queue_len_estimate < u64::MAX,
        ensures
            final(self).wf(),
            final(self)@ == old(self)@.accepted(tenant, task, own_slot),
            handle.0 == old(self)@.books.last_id + 1,
    {
        let ghost before = self@;
        let i: usize = self.shard_index(tenant);
        let lane: usize = task.priority.index();
        let mut state = self.shards[i].take_tenant(tenant).unwrap();
        let id: u64 = self.books.enroll(tenant, lane, own_slot);
        let was_active = state.lanes[lane].active;
        assert(state@.lanes[lane as int].active == was_active);
        let was_empty = state.append(lane, QueueEntry { id, task });
        self.shards[i].put_tenant(tenant, state);
        if !was_active {
            self.shards[i].join_ring(lane, tenant);
        }
        if was_empty {
            self.books.request_wake();
        }
        if !self.shard_active[i] {
            self.shard_active[i] = true;
            self.active_shards.push_back(i);
        }
        proof {
            let after = before.accepted(tenant, task, own_slot);
            assert(self@.shards[i as int].tenants =~= after.shards[i as int].tenants);
            assert(self@.shards[i as int].rings =~= after.shards[i as int].rings);
            assert(self@.shards =~= after.shards);
            assert(self@.shard_active =~= after.shard_active);
            assert(self@ =~= after);
        }
        TaskHandle(id)
    }

    /// One attempt to enqueue that gives the task back if it finds no room.
    pub fn enqueue_try_reject(
        &mut self,
        limits: Limits,
        tenant: TenantKey,
        task: Task<T>,
        quantum: i64,
        now: Instant,
    ) -> (attempt: EnqueueAttempt<T>)
        requires
            old(self).inv(),
            1 <= quantum,
        ensures
            final(self).inv(),
            (final(self)@, attempt) == old(self)@.try_enqueue(
                limits,
                tenant.0,
                task,
                quantum as int,
                now,
            ),
    {
        proof {
            invariants::lemma_try_enqueue(self@, limits, tenant.0, task, quantum as int, now);
            invariants::lemma_prepared(self@, limits, tenant.0, quantum as int, now);
        }
        if !self.is_accepting() {
            return EnqueueAttempt::Closed(task);
        }
        if self.prepare(limits, tenant.0, quantum, now) {
            return EnqueueAttempt::Full(task, EnqueueRejectReason::TenantFull);
        }
        if self.books.global_full(limits) {
            return EnqueueAttempt::Full(task, EnqueueRejectReason::GlobalFull);
        }
        EnqueueAttempt::Enqueued(self.append_task(tenant.0, task, true))
    }

    /// Counts an enqueue that was turned away.
    pub fn record_reject(&mut self, reason: EnqueueRejectReason)
        requires
            old(self).inv(),
        ensures
            final(self).inv(),
            final(self)@ == old(self)@.counting_reject(reason),
    {
        self.books.reject(reason);
        assert(self@ =~= old(self)@.counting_reject(reason));
    }

    /// Enqueue that turns the task away when a limit is hit.
    pub fn enqueue_reject_with_handle(
        &mut self,
        limits: Limits,
        tenant: TenantKey,
        task: Task<T>,
        quantum: i64,
        now: Instant,
    ) -> (r: EnqueueWithHandleResult)
        requires
            old(self).inv(),
            1 <= quantum,
        ensures
            final(self).inv(),
            (final(self)@, r) == old(self)@.enqueue_reject(
                limits,
                tenant.0,
                task,
                quantum as int,
                now,
            ),
    {
        self.place(limits, tenant, task, quantum, now).0
    }

    /// Enqueue that turns the task away when a limit is hit, and gives it back.
    fn place(
        &mut self,
        limits: Limits,
        tenant: TenantKey,
        task: Task<T>,
        quantum: i64,
        now: Instant,
    ) -> (out: (EnqueueWithHandleResult, Option<Task<T>>))
        requires
            old(self).inv(),
            1 <= quantum,
        ensures
            final(self).inv(),
            (final(self)@, out.0) == old(self)@.enqueue_reject(
                limits,
                tenant.0,
                task,
                quantum as int,
                now,
            ),
            out.1 == model::unplaced(out.0, task),
    {
        match self.enqueue_try_reject(limits, tenant, task, quantum, now) {
            EnqueueAttempt::Enqueued(handle) => (EnqueueWithHandleResult::Enqueued(handle), None),
            EnqueueAttempt::Closed(back) => (EnqueueWithHandleResult::Closed, Some(back)),
            EnqueueAttempt::Full(back, reason) => {
                self.record_reject(reason);
                (EnqueueWithHandleResult::Rejected(reason), Some(back))
            },
        }
    }

    /// Lane of the tenant that gives up an entry for the incoming task.
    fn victim_lane(&self, tenant: u64, incoming: Priority) -> (lane: Option<usize>)
        requires
            self@.shards.len() >= 1,
            self@.knows(tenant),
        ensures
            match lane {
                Some(l) => l < LANES && self@.tenant(tenant).victim_lane(incoming.rank()) == Some(
                    l as int,
                ),
                None => self@.tenant(tenant).victim_lane(incoming.rank()) is None,
            },
    {
        let i: usize = self.shard_index(tenant);
        self.shards[i].tenant(tenant).unwrap().victim_lane(incoming)
    }

    /// Takes the entry that the strategy gives up out of the tenant's lane.
    fn drop_from_tenant(&mut self, tenant: u64, lane: usize, strategy: DropStrategy)
        requires
            old(self).wf(),
            old(self)@.shards.len() >= 1,
            old(self)@.knows(tenant),
            lane < LANES,
            old(self)@.tenant(tenant).lanes[lane as int].queue.len() > 0,
        ensures
            final(self).wf(),
            final(self)@ == old(self)@.without_victim(
                tenant,
                lane as int,
                old(self)@.tenant(tenant).victim_position(lane as int, strategy),
            ),
    {
        let ghost before = self@;
        let i: usize = self.shard_index(tenant);
        let mut state = self.shards[i].take_tenant(tenant).unwrap();
        let dropped = state.drop_from_lane(lane, strategy);
        self.shards[i].put_tenant(tenant, state);
        self.books.replace(dropped);
        proof {
            let after = before.without_victim(
                tenant,
                lane as int,
                before.tenant(tenant).victim_position(lane as int, strategy),
            );
            assert(self@.shards[i as int].tenants =~= after.shards[i as int].tenants);
            assert(self@.shards =~= after.shards);
            assert(self@ =~= after);
        }
    }

    /// Enqueue that gives up a task of the same tenant when a limit is hit.
    pub fn enqueue_drop_with_handle(
        &mut self,
        limits: Limits,
        tenant: TenantKey,
        task: Task<T>,
        strategy: DropStrategy,
        quantum: i64,
        now: Instant,
    ) -> (r: EnqueueWithHandleResult)
        requires
            old(self).inv(),
            1 <= quantum,
        ensures
            final(self).inv(),
            (final(self)@, r) == old(self)@.enqueue_drop(
                limits,
                tenant.0,
                task,
                strategy,
                quantum as int,
                now,
            ),
    {
        self.place_over(limits, tenant, task, strategy, quantum, now).0
    }

    /// Enqueue that gives up a task of the same tenant when a limit is hit, and gives the
    /// task back if it is not accepted all the same.
    fn place_over(
        &mut self,
        limits: Limits,
        tenant: TenantKey,
        task: Task<T>,
        strategy: DropStrategy,
        quantum: i64,
        now: Instant,
    ) -> (out: (EnqueueWithHandleResult, Option<Task<T>>))
        requires
            old(self).inv(),
            1 <= quantum,
        ensures
            final(self).inv(),
            (final(self)@, out.0) == old(self)@.enqueue_drop(
                limits,
                tenant.0,
                task,
                strategy,
                quantum as int,
                now,
            ),
            out.1 == model::unplaced(out.0, task),
    {
        proof {
            invariants::lemma_enqueue_drop(
                self@,
                limits,
                tenant.0,
                task,
                strategy,
                quantum as int,
                now,
            );
            invariants::lemma_prepared(self@, limits, tenant.0, quantum as int, now);
        }
        if !self.is_accepting() {
            return (EnqueueWithHandleResult::Closed, Some(task));
        }
        let tenant_full = self.prepare(limits, tenant.0, quantum, now);
        let ghost prepared = self@;
        if !tenant_full && !self.books.global_full(limits) {
            let handle = self.append_task(tenant.0, task, true);
            return (EnqueueWithHandleResult::Enqueued(handle), None);
        }
        let lane = self.victim_lane(tenant.0, task.priority);
        if lane.is_none() || self.books.out_of_numbers() {
            let reason = if tenant_full {
                EnqueueRejectReason::TenantFull
            } else {
                EnqueueRejectReason::GlobalFull
            };
            self.record_reject(reason);
            return (EnqueueWithHandleResult::Rejected(reason), Some(task));
        }
        let lane: usize = lane.unwrap();
        proof {
            invariants::lemma_victim(prepared.tenant(tenant.0), task.priority.rank(), strategy);
        }
        self.drop_from_tenant(tenant.0, lane, strategy);
        let handle = self.append_task(tenant.0, task, false);
        (EnqueueWithHandleResult::Enqueued(handle), None)
    }

    /// Cancels a pending task.
    pub fn cancel(&mut self, handle: TaskHandle) -> (r: CancelResult)
        requires
            old(self).inv(),
        ensures
            final(self).inv(),
            final(self)@ == old(self)@.cancel(handle.0),
            r == if old(self)@.books.pending.contains(handle.0) {
                CancelResult::Cancelled
            } else {
                CancelResult::NotFound
            },
    {
        proof {
            invariants::lemma_cancel(self@, handle.0);
        }
        let found = self.books.cancel(handle.as_u64());
        assert(self@ =~= old(self)@.cancel(handle.0));
        if found {
            CancelResult::Cancelled
        } else {
            CancelResult::NotFound
        }
    }

    /// Requests shutdown.
    pub fn set_shutdown_mode(&mut self, mode: CloseMode)
        requires
            old(self).inv(),
        ensures
            final(self).inv(),
            final(self)@ == old(self)@.close(mode),
    {
        let next = match mode {
            CloseMode::Immediate => ShutdownState::Immediate,
            CloseMode::Drain => if self.shutdown == ShutdownState::Open {
                ShutdownState::Drain
            } else {
                self.shutdown
            },
        };
        if next != self.shutdown {
            self.shutdown = next;
            self.books.request_wake();
        }
        assert(self@ =~= old(self)@.close(mode));
    }

    /// Snapshot of the metrics.
    pub fn stats(&self, limits: Limits) -> (stats: SchedulerStats)
        ensures
            self@.reports(limits, stats),
    {
        let counters = self.books.stats();
        let histogram = counters.histogram();
        SchedulerStats {
            enqueued: counters.enqueued,
            dequeued: counters.dequeued,
            expired: counters.expired,
            dropped: counters.dropped,
            rejected_global: counters.rejected_global,
            rejected_tenant: counters.rejected_tenant,
            timeout_rejected: counters.timeout_rejected,
            dropped_policy: counters.dropped_policy,
            queue_len_estimate: counters.queue_len_estimate,
            max_global: limits.max_global as u64,
            queue_time_sum_ns: counters.queue_time_sum_ns,
            queue_time_samples: counters.queue_time_samples,
            queue_time_p95_ns: percentile(&histogram, 95),
            queue_time_p99_ns: percentile(&histogram, 99),
            queue_time_histogram: histogram,
            top_tenants: self.books.top().snapshot(),
        }
    }

    /// Number of live tasks.
    pub fn queue_len(&self) -> (n: u64)
        ensures
            n == self@.books.stats.queue_len_estimate,
    {
        self.books.queue_len()
    }

    /// Periodic compactions so far.
    pub fn purge_runs(&self) -> (n: u64)
        ensures
            n == self@.books.purge_runs,
    {
        self.books.purge_runs()
    }

    /// Hands over what is left to be done after the operations so far.
    pub fn clear(&mut self) -> (rest: Rest<T>)
        requires
            old(self).inv(),
        ensures
            final(self).inv(),
            rest.is_of(old(self)@, None),
            final(self)@ == old(self)@.cleared(),
    {
        let wake = self.books.take_wake();
        let removed = self.books.take_removed();
        assert(self@ =~= old(self)@.cleared());
        Rest { wake, removed, back: None }
    }

    /// Budget that the tenant is granted per round by the settings of this moment.
    /// A provider is asked only if no quantum is fixed for the tenant.
    pub fn quantum_for(&self, tenant: TenantKey, base: u64) -> (quantum: i64)
        ensures
            self@.granted(tenant.0, base, quantum as int),
            1 <= quantum,
    {
        if let Some(value) = self.tenant_quantum.get(&tenant.0) {
            return effective_quantum(Some(*value), None, base);
        }
        if let Some(provider) = &self.quantum_provider {
            let provided: u64 = provider.quantum(tenant);
            return effective_quantum(None, Some(provided), base);
        }
        effective_quantum(None, None, base)
    }

    /// Who is to be asked for the tenant's quantum now: nobody, if it is fixed.
    pub fn asked(&self, tenant: TenantKey) -> (provider: Option<QuantumProvider>)
        ensures
            provider == if self@.quanta.contains_key(tenant.0) {
                None
            } else {
                self@.provider
            },
    {
        if self.tenant_quantum.contains_key(&tenant.0) {
            None
        } else {
            shared(&self.quantum_provider)
        }
    }

    /// Whether there is an answer, and it is that of the provider to be asked now: their
    /// handles are handles to the same one. Of other handles nothing is claimed.
    pub fn is_current(&self, answer: &Option<Answer>) -> (current: bool)
        ensures
            current ==> self@.counts(*answer),
            match *answer {
                Some(a) => compared(a.provider, self@.provider, current),
                None => !current,
            },
    {
        match answer {
            Some(a) => a.is_of(&self.quantum_provider),
            None => false,
        }
    }

    /// Quantum that an enqueue for the tenant goes by, or who is to be asked for it
    /// first. Nobody is asked for a tenant that is known or has a fixed quantum. One who
    /// cannot wait for an answer (`!patient`) has the provider asked here.
    fn settle(
        &self,
        tenant: TenantKey,
        base: u64,
        answer: &Option<Answer>,
        current: bool,
        patient: bool,
    ) -> (r: Result<i64, Option<QuantumProvider>>)
        requires
            self.inv(),
            answer matches Some(a) ==> a.genuine(tenant),
            current ==> self@.counts(*answer),
        ensures
            match r {
                Ok(quantum) => self@.admits(tenant.0, base, quantum as int),
                Err(provider) => provider == self@.provider,
            },
            r is Err <==> patient && !current && self@.asks(tenant.0),
    {
        if !self.is_accepting() || self.knows(tenant.0) {
            return Ok(1);
        }
        if !patient || self.tenant_quantum.contains_key(&tenant.0) {
            return Ok(self.quantum_for(tenant, base));
        }
        if self.quantum_provider.is_none() {
            return Ok(self.quantum_for(tenant, base));
        }
        match answer {
            Some(a) if current => Ok(effective_quantum(None, Some(a.quantum), base)),
            _ => Err(shared(&self.quantum_provider)),
        }
    }

    /// Enqueue that turns the task away when a limit is hit, with the quantum that the
    /// settings of this moment give; hands over what is left to be done. If
    /// the provider has to be asked for the quantum first, and the answer is not a current
    /// one of its own, nothing happens yet, but for callers who have no time for that.
    pub fn offer_reject(
        &mut self,
        settings: Settings,
        tenant: TenantKey,
        task: Task<T>,
        answer: &Option<Answer>,
        current: bool,
        patient: bool,
        now: Instant,
    ) -> (out: Offered<T, EnqueueWithHandleResult>)
        requires
            old(self).inv(),
            answer matches Some(a) ==> a.genuine(tenant),
            current ==> old(self)@.counts(*answer),
        ensures
            final(self).inv(),
            match out {
                Offered::Done(r, rest) => old(self)@.offered_reject(
                    settings,
                    tenant.0,
                    task,
                    now,
                    r,
                    rest,
                    final(self)@,
                ),
                Offered::Ask(back, provider) => back == task && provider == old(self)@.provider
                    && final(self)@ == old(self)@,
            },
            out is Ask <==> patient && !current && old(self)@.asks(tenant.0),
    {
        match self.settle(tenant, settings.quantum, answer, current, patient) {
            Err(provider) => Offered::Ask(task, provider),
            Ok(quantum) => {
                let (r, back) = self.place(settings.limits, tenant, task, quantum, now);
                let rest = Rest { back, ..self.clear() };
                assert(r == old(self)@.enqueue_reject(
                    settings.limits,
                    tenant.0,
                    task,
                    quantum as int,
                    now,
                ).1);
                Offered::Done(r, rest)
            },
        }
    }

    /// Enqueue that gives up a task of the same tenant when a limit is hit; the rest is
    /// as with `offer_reject`.
    pub fn offer_drop(
        &mut self,
        settings: Settings,
        tenant: TenantKey,
        task: Task<T>,
        strategy: DropStrategy,
        answer: &Option<Answer>,
        current: bool,
        patient: bool,
        now: Instant,
    ) -> (out: Offered<T, EnqueueWithHandleResult>)
        requires
            old(self).inv(),
            answer matches Some(a) ==> a.genuine(tenant),
            current ==> old(self)@.counts(*answer),
        ensures
            final(self).inv(),
            match out {
                Offered::Done(r, rest) => old(self)@.offered_drop(
                    settings,
                    tenant.0,
                    task,
                    strategy,
                    now,
                    r,
                    rest,
                    final(self)@,
                ),
                Offered::Ask(back, provider) => back == task && provider == old(self)@.provider
                    && final(self)@ == old(self)@,
            },
            out is Ask <==> patient && !current && old(self)@.asks(tenant.0),
    {
        match self.settle(tenant, settings.quantum, answer, current, patient) {
            Err(provider) => Offered::Ask(task, provider),
            Ok(quantum) => {
                let (r, back) = self.place_over(
                    settings.limits,
                    tenant,
                    task,
                    strategy,
                    quantum,
                    now,
                );
                let rest = Rest { back, ..self.clear() };
                assert(r == old(self)@.enqueue_drop(
                    settings.limits,
                    tenant.0,
                    task,
                    strategy,
                    quantum as int,
                    now,
                ).1);
                Offered::Done(r, rest)
            },
        }
    }

    /// One attempt to enqueue of a caller who waits for room until `deadline`; the rest is
    /// as with `offer_reject`.
    pub fn offer_timed(
        &mut self,
        settings: Settings,
        tenant: TenantKey,
        task: Task<T>,
        answer: &Option<Answer>,
        current: bool,
        patient: bool,
        now: Instant,
        deadline: Instant,
    ) -> (out: Offered<T, TimedAttempt<T>>)
        requires
            old(self).inv(),
            answer matches Some(a) ==> a.genuine(tenant),
            current ==> old(self)@.counts(*answer),
        ensures
            final(self).inv(),
            match out {
                Offered::Done(r, rest) => old(self)@.offered_timed(
                    settings,
                    tenant.0,
                    task,
                    now,
                    deadline,
                    r,
                    rest,
                    final(self)@,
                ),
                Offered::Ask(back, provider) => back == task && provider == old(self)@.provider
                    && final(self)@ == old(self)@,
            },
            out is Ask <==> patient && !current && old(self)@.asks(tenant.0),
    {
        match self.settle(tenant, settings.quantum, answer, current, patient) {
            Err(provider) => Offered::Ask(task, provider),
            Ok(quantum) => {
                let (r, back) = match self.enqueue_try_reject(
                    settings.limits,
                    tenant,
                    task,
                    quantum,
                    now,
                ) {
                    EnqueueAttempt::Enqueued(handle) => (
                        TimedAttempt::Done(EnqueueWithHandleResult::Enqueued(handle)),
                        None,
                    ),
                    EnqueueAttempt::Closed(back) => (
                        TimedAttempt::Done(EnqueueWithHandleResult::Closed),
                        Some(back),
                    ),
                    EnqueueAttempt::Full(back, _) => match after_refusal(now, deadline) {
                        Refused::GiveUp => {
                            self.record_reject(EnqueueRejectReason::Timeout);
                            (
                                TimedAttempt::Done(
                                    EnqueueWithHandleResult::Rejected(EnqueueRejectReason::Timeout),
                                ),
                                Some(back),
                            )
                        },
                        Refused::Wait(left) => (TimedAttempt::Wait(back, left), None),
                    },
                };
                let rest = Rest { back, ..self.clear() };
                assert(r == old(self)@.timed_enqueue(
                    settings.limits,
                    tenant.0,
                    task,
                    quantum as int,
                    now,
                    deadline,
                ).1);
                Offered::Done(r, rest)
            },
        }
    }

    /// Gives the tenant, if known, another quantum.
    fn refresh_tenant_quantum(&mut self, tenant: u64, quantum: i64)
        requires
            old(self).inv(),
            1 <= quantum,
        ensures
            final(self).inv(),
            final(self)@ == old(self)@.with_quantum(tenant, quantum as int),
    {
        let ghost before = self@;
        proof {
            invariants::lemma_with_quantum(before, tenant, quantum as int);
        }
        let i: usize = self.shard_index(tenant);
        if let Some(mut state) = self.shards[i].take_tenant(tenant) {
            state.quantum = quantum;
            self.shards[i].put_tenant(tenant, state);
        }
        proof {
            let after = before.with_quantum(tenant, quantum as int);
            assert(self@.shards[i as int].tenants =~= after.shards[i as int].tenants);
            assert(self@.shards =~= after.shards);
            assert(self@ =~= after);
        }
    }

    /// Fixes the tenant's quantum.
    pub fn set_tenant_quantum(&mut self, tenant: TenantKey, quantum: u64)
        requires
            old(self).inv(),
        ensures
            final(self).inv(),
            final(self)@ == old(self)@.with_fixed(tenant.0, quantum).with_quantum(
                tenant.0,
                model::effective_quantum(Some(quantum), None, 0),
            ),
    {
        let value: u64 = if quantum == 0 {
            1
        } else {
            quantum
        };
        self.tenant_quantum.insert(tenant.0, value);
        assert(self@ =~= old(self)@.with_fixed(tenant.0, quantum));
        self.refresh_tenant_quantum(tenant.0, effective_quantum(Some(value), None, 0));
    }

    /// Forgets the tenant's fixed quantum, and grants the base if there is nobody to be
    /// asked; says who is.
    pub fn release(&mut self, tenant: TenantKey, base: u64) -> (provider: Option<QuantumProvider>)
        requires
            old(self).inv(),
        ensures
            final(self).inv(),
            provider == old(self)@.provider,
            final(self)@ == if provider is Some {
                old(self)@.without_fixed(tenant.0)
            } else {
                old(self)@.without_fixed(tenant.0).with_quantum(
                    tenant.0,
                    model::effective_quantum(None, None, base),
                )
            },
    {
        self.tenant_quantum.remove(&tenant.0);
        assert(self@ =~= old(self)@.without_fixed(tenant.0));
        if self.quantum_provider.is_none() {
            self.refresh_tenant_quantum(tenant.0, effective_quantum(None, None, base));
        }
        shared(&self.quantum_provider)
    }

    /// Grants the tenant, if known, what the provider said, unless its quantum is fixed
    /// or the answer is not that of the provider to be asked now; says whether it did.
    pub fn grant(&mut self, tenant: TenantKey, base: u64, answer: &Option<Answer>, current: bool)
        -> (done: bool)
        requires
            old(self).inv(),
            answer matches Some(a) ==> a.genuine(tenant),
            current ==> old(self)@.counts(*answer),
        ensures
            final(self).inv(),
            done == (current && !old(self)@.quanta.contains_key(tenant.0)),
            final(self)@ == if done {
                old(self)@.with_quantum(
                    tenant.0,
                    model::effective_quantum(None, Some(answer->0.quantum), base),
                )
            } else {
                old(self)@
            },
    {
        if !current || self.tenant_quantum.contains_key(&tenant.0) {
            return false;
        }
        if let Some(a) = answer {
            let quantum: i64 = effective_quantum(None, Some(a.quantum), base);
            self.refresh_tenant_quantum(tenant.0, quantum);
        }
        true
    }

    /// Has somebody else asked for quanta from now on; says who was asked before, and for
    /// which tenants the quantum is to be asked: those that are known and have no fixed
    /// one.
    pub fn install(&mut self, provider: Option<QuantumProvider>) -> (out: (
        Option<QuantumProvider>,
        Vec<u64>,
    ))
        requires
            old(self).inv(),
        ensures
            final(self).inv(),
            final(self)@ == old(self)@.with_provider(provider),
            out.0 == old(self)@.provider,
            forall|t: u64|
                out.1@.contains(t) <==> #[trigger] old(self)@.depends(t),
    {
        let ghost start = self@;
        let previous = self.quantum_provider.take();
        self.quantum_provider = provider;
        assert(self@ =~= start.with_provider(provider));
        let mut tenants: Vec<u64> = Vec::new();
        let count: usize = self.shards.len();
        for i in 0..count
            invariant
                self@ == start.with_provider(provider),
                self.inv(),
                count == start.shards.len(),
                forall|t: u64| #[trigger]
                    tenants@.contains(t) <==> start.shard_index(t) < i && start.knows(t)
                        && !start.quanta.contains_key(t),
        {
            let keys = self.shards[i].tenant_keys();
            let ghost before = tenants@;
            let ghost shard = self@.shards[i as int];
            for k in 0..keys.len()
                invariant
                    self@ == start.with_provider(provider),
                    self.inv(),
                    forall|t: u64| #[trigger]
                        tenants@.contains(t) <==> before.contains(t) || keys@.take(
                            k as int,
                        ).contains(t) && !start.quanta.contains_key(t),
            {
                let tenant: u64 = keys[k];
                let ghost earlier = tenants@;
                let ghost part = keys@.take(k as int);
                if !self.tenant_quantum.contains_key(&tenant) {
                    tenants.push(tenant);
                }
                proof {
                    assert(keys@.take(k + 1) =~= part.push(tenant));
                    assert forall|t: u64| #[trigger]
                        tenants@.contains(t) <==> before.contains(t) || keys@.take(
                            k + 1,
                        ).contains(t) && !start.quanta.contains_key(t) by {
                        lemma_contains_push(earlier, tenant, t);
                        lemma_contains_push(part, tenant, t);
                        assert(earlier.contains(t) <==> before.contains(t) || part.contains(t)
                            && !start.quanta.contains_key(t));
                    }
                }
            }
            proof {
                assert(keys@.take(keys@.len() as int) =~= keys@);
                assert(shard.inv(self@.books.home, i as int, count as nat));
                assert forall|t: u64| #[trigger]
                    tenants@.contains(t) <==> start.shard_index(t) < i + 1 && start.knows(t)
                        && !start.quanta.contains_key(t) by {
                    assert(keys@.contains(t) <==> shard.tenants.contains_key(t));
                    assert(before.contains(t) <==> start.shard_index(t) < i && start.knows(t)
                        && !start.quanta.contains_key(t));
                }
            }
        }
        proof {
            assert forall|t: u64|
                tenants@.contains(t) <==> #[trigger] start.depends(t) by {
                invariants::lemma_shard_index(start, t);
            }
        }
        (previous, tenants)
    }

    /// Forgets the tenant's fixed quantum.
    pub fn clear_tenant_quantum(&mut self, tenant: TenantKey, base: u64)
        requires
            old(self).inv(),
        ensures
            final(self).inv(),
            exists|quantum: int|
                old(self)@.without_fixed(tenant.0).granted(tenant.0, base, quantum)
                    && final(self)@ == #[trigger] old(self)@.without_fixed(tenant.0).with_quantum(
                    tenant.0,
                    quantum,
                ),
    {
        self.tenant_quantum.remove(&tenant.0);
        assert(self@ =~= old(self)@.without_fixed(tenant.0));
        let quantum: i64 = self.quantum_for(tenant, base);
        self.refresh_tenant_quantum(tenant.0, quantum);
    }

    /// Sets or removes the provider and grants every known tenant anew; says who was asked
    /// before.
    pub fn set_quantum_provider(&mut self, provider: Option<QuantumProvider>, base: u64)
        -> (previous: Option<QuantumProvider>)
        requires
            old(self).inv(),
        ensures
            final(self).inv(),
            previous == old(self)@.provider,
            old(self)@.with_provider(provider).regranted(final(self)@, base),
            forall|limits: Limits| #[trigger]
                laws::reached(old(self)@.with_provider(provider), limits, final(self)@),
    {
        let previous = self.quantum_provider.take();
        self.quantum_provider = provider;
        let count: usize = self.shards.len();
        let ghost start = self@;
        assert(start =~= old(self)@.with_provider(provider));
        proof {
            assert forall|limits: Limits| #[trigger] laws::reached(start, limits, start) by {
                laws::lemma_reached_start(start, limits);
            }
        }
        for i in 0..count
            invariant
                self.inv(),
                count == start.shards.len(),
                self@.shards.len() == count,
                start.inv(),
                start.same_but_quanta(self@),
                forall|limits: Limits| #[trigger] laws::reached(start, limits, self@),
                forall|t: u64|
                    start.knows(t) && start.shard_index(t) < i ==> start.granted(
                        t,
                        base,
                        (#[trigger] self@.tenant(t)).quantum,
                    ),
        {
            let keys = self.shards[i].tenant_keys();
            let ghost tenants = self@.shards[i as int].tenants.dom();
            for k in 0..keys.len()
                invariant
                    i < count,
                    self.inv(),
                    count == start.shards.len(),
                    self@.shards.len() == count,
                    start.inv(),
                    start.same_but_quanta(self@),
                    forall|limits: Limits| #[trigger] laws::reached(start, limits, self@),
                    forall|t: u64| keys@.contains(t) <==> #[trigger] tenants.contains(t),
                    forall|t: u64|
                        start.knows(t) && start.shard_index(t) == i ==> #[trigger] tenants.contains(t),
                    forall|t: u64|
                        start.knows(t) && (start.shard_index(t) < i || keys@.take(k as int).contains(
                            t,
                        )) ==> start.granted(
                            t,
                            base,
                            (#[trigger] self@.tenant(t)).quantum,
                        ),
            {
                let tenant: u64 = keys[k];
                let ghost before = self@;
                let quantum: i64 = self.quantum_for(TenantKey(tenant), base);
                self.refresh_tenant_quantum(tenant, quantum);
                proof {
                    lemma_refreshed(start, before, tenant, quantum as int);
                    assert forall|limits: Limits| #[trigger] laws::reached(
                        start,
                        limits,
                        self@,
                    ) by {
                        let step = laws::Step::Grant { tenant, quantum: quantum as int };
                        laws::lemma_reached_next(start, limits, before, step);
                        reveal(laws::apply);
                    }
                    assert forall|t: u64|
                        start.knows(t) && (start.shard_index(t) < i || keys@.take(k + 1).contains(
                            t,
                        )) implies start.granted(
                        t,
                        base,
                        (#[trigger] self@.tenant(t)).quantum,
                    ) by {
                        if t != tenant {
                            if keys@.take(k + 1).contains(t) {
                                let more = keys@.take(k + 1);
                                let p = choose|p: int| 0 <= p < more.len() && more[p] == t;
                                assert(keys@.take(k as int)[p] == t);
                            }
                            let _ = before.tenant(t);
                        }
                    }
                }
            }
            proof {
                assert(keys@.take(keys@.len() as int) =~= keys@);
                assert forall|t: u64| start.knows(t) && start.shard_index(t) < i + 1 implies start.granted(
                    t,
                    base,
                    (#[trigger] self@.tenant(t)).quantum,
                ) by {
                    if start.shard_index(t) == i {
                        assert(tenants.contains(t));
                    }
                }
            }
        }
        proof {
            assert forall|t: u64| start.knows(t) implies start.granted(
                t,
                base,
                (#[trigger] self@.tenant(t)).quantum,
            ) by {
                invariants::lemma_shard_index(start, t);
            }
        }
        previous
    }
}

/// A further quantum keeps a state the same but for quanta.
proof fn lemma_refreshed<T>(start: StateView<T>, before: StateView<T>, t: u64, quantum: int)
    requires
        start.shards.len() >= 1,
        before.shards.len() == start.shards.len(),
        start.same_but_quanta(before),
    ensures
        start.same_but_quanta(before.with_quantum(t, quantum)),
        before.knows(t) ==> before.with_quantum(t, quantum).tenant(t).quantum == quantum,
        forall|u: u64|
            u != t ==> (#[trigger] before.with_quantum(t, quantum).tenant(u)) == before.tenant(u),
{
    let after = before.with_quantum(t, quantum);
    let i = before.shard_index(t);
    invariants::lemma_shard_index(before, t);
    assert forall|u: u64| u != t implies (#[trigger] after.tenant(u)) == before.tenant(u) by {
        invariants::lemma_shard_index(before, u);
    }
    assert forall|j: int, u: u64|
        0 <= j < start.shards.len() && (#[trigger] start.shards[j].tenants.contains_key(
            u,
        )) implies after.shards[j].tenants[u] == (TenantView {
        quantum: after.shards[j].tenants[u].quantum,
        ..start.shards[j].tenants[u]
    }) by {
        assert(start.shards[j].tenants.contains_key(u));
        assert(before.shards[j].tenants[u] == (TenantView {
            quantum: before.shards[j].tenants[u].quantum,
            ..start.shards[j].tenants[u]
        }));
    }
    assert forall|j: int| 0 <= j < start.shards.len() implies (
    #[trigger] after.shards[j]).tenants.dom() == start.shards[j].tenants.dom()
        && after.shards[j].rings == start.shards[j].rings by {
        assert(before.shards[j].tenants.dom() == start.shards[j].tenants.dom());
        assert(after.shards[j].tenants.dom() =~= before.shards[j].tenants.dom());
    }
}

/// A longer sequence holds what is put at its end, and what it held.
proof fn lemma_contains_push(a: Seq<u64>, x: u64, y: u64)
    ensures
        a.push(x).contains(y) <==> a.contains(y) || x == y,
{
    let longer = a.push(x);
    if a.contains(y) {
        let p = choose|p: int| 0 <= p < a.len() && a[p] == y;
        assert(longer[p] == y);
    }
    assert(longer[a.len() as int] == x);
    if longer.contains(y) {
        let p = choose|p: int| 0 <= p < longer.len() && longer[p] == y;
        if p < a.len() {
            assert(a[p] == y);
        }
    }
}

} // verus!
