//! Mathematical model of the scheduler.
//!
//! The executable types have views in this module; what each operation does is
//! written here once, as a function from view to view, and the contracts of the
//! executable functions refer to it.
use vstd::prelude::*;

use crate::api::{
    CloseMode, DequeueResult, EnqueueRejectReason, EnqueueWithHandleResult, QuantumProvider,
    QueueTimeBucket, SchedulerStats, Task, TaskHandle, TenantCount, TenantKey,
};
use crate::engine::{Answer, Rest};
use crate::time::{Duration, Instant};

verus! {

/// Number of priority lanes a tenant has.
pub const LANES: usize = 3;

/// Every so many enqueues of a tenant, its stale entries are compacted.
pub const PURGE_INTERVAL: u32 = 64;

/// Upper bounds of the queue time histogram, in nanoseconds. The last bucket
/// takes everything.
pub open spec fn bucket_bounds() -> Seq<u64> {
    seq![
        10_000u64,
        50_000,
        100_000,
        500_000,
        1_000_000,
        5_000_000,
        10_000_000,
        50_000_000,
        100_000_000,
        500_000_000,
        1_000_000_000,
        0xffff_ffff_ffff_ffff,
    ]
}

/// `x` held at the largest `u64`.
pub open spec fn sat(x: int) -> int {
    if x > u64::MAX {
        u64::MAX as int
    } else {
        x
    }
}

/// `x` held at the largest `i64`.
pub open spec fn budget(x: int) -> int {
    if x > i64::MAX {
        i64::MAX as int
    } else {
        x
    }
}

/// Budget that a tenant is granted per round: its fixed quantum, or else the one
/// that a provider gave, or else the base; at least one, and at most what a
/// budget can hold.
pub open spec fn effective_quantum(fixed: Option<u64>, provided: Option<u64>, base: u64) -> int {
    let raw = match fixed {
        Some(value) => value,
        None => match provided {
            Some(value) => value,
            None => base,
        },
    };
    budget(
        if raw == 0 {
            1
        } else {
            raw as int
        },
    )
}

/// Shard, out of `shards`, that looks after `tenant`.
pub open spec fn shard_of(tenant: u64, shards: nat) -> int {
    (tenant as usize) as int % shards as int
}

/// A task in a lane, under the number its handle carries.
#[derive(Clone, Debug)]
pub struct QueueEntry<T> {
    /// Number handed out with the task's handle.
    pub id: u64,
    /// The task itself.
    pub task: Task<T>,
}

/// How far shutdown has got.
#[derive(Copy, Clone, Debug, PartialEq, Eq, Structural)]
pub enum ShutdownState {
    /// Tasks are accepted and handed out.
    Open,
    /// No new tasks; the pending ones are handed out.
    Drain,
    /// Nothing is accepted or handed out.
    Immediate,
}

impl ShutdownState {
    /// State after a request to close with `mode`: shutdown never goes back.
    pub open spec fn closed_with(self, mode: CloseMode) -> ShutdownState {
        match mode {
            CloseMode::Immediate => ShutdownState::Immediate,
            CloseMode::Drain => if self == ShutdownState::Open {
                ShutdownState::Drain
            } else {
                self
            },
        }
    }

    /// Steps taken towards a full stop.
    pub open spec fn level(self) -> int {
        match self {
            ShutdownState::Open => 0,
            ShutdownState::Drain => 1,
            ShutdownState::Immediate => 2,
        }
    }
}

/// Which task makes room for a new one.
#[derive(Copy, Clone, Debug, PartialEq, Eq, Structural)]
pub enum DropStrategy {
    /// The one that has waited longest.
    Oldest,
    /// The one that came last.
    Newest,
}

/// Capacity limits of a scheduler.
#[derive(Copy, Clone, Debug, PartialEq, Eq, Structural)]
pub struct Limits {
    /// Most tasks pending over all tenants.
    pub max_global: usize,
    /// Most entries queued for one tenant.
    pub max_per_tenant: usize,
}

/// What is settled when a scheduler is made.
#[derive(Copy, Clone, Debug, PartialEq, Eq, Structural)]
pub struct Settings {
    /// Number of shards.
    pub shards: usize,
    /// Capacity limits.
    pub limits: Limits,
    /// Quantum of tenants for which nothing else is said.
    pub quantum: u64,
    /// Most tenants in the table of top talkers.
    pub top_capacity: usize,
}

/// Outcome of one attempt to enqueue that gives the task back if it is not accepted.
#[derive(Clone, Debug)]
pub enum EnqueueAttempt<T> {
    /// Task was accepted.
    Enqueued(TaskHandle),
    /// Scheduler is closed; here is the task again.
    Closed(Task<T>),
    /// No room, for this reason; here is the task again.
    Full(Task<T>, EnqueueRejectReason),
}

/// Outcome of one attempt to enqueue that may wait for room.
pub enum TimedAttempt<T> {
    /// It is settled: accepted, closed, or time is up.
    Done(EnqueueWithHandleResult),
    /// No room yet: here is the task again, with the time left.
    Wait(Task<T>, Duration),
}

/// The task, if the enqueue did not accept it.
pub open spec fn unplaced<T>(r: EnqueueWithHandleResult, task: Task<T>) -> Option<Task<T>> {
    if r is Enqueued {
        None
    } else {
        Some(task)
    }
}

/// The task, if the attempt is settled and did not accept it.
pub open spec fn unsettled<T>(r: TimedAttempt<T>, task: Task<T>) -> Option<Task<T>> {
    match r {
        TimedAttempt::Done(result) => unplaced(result, task),
        TimedAttempt::Wait(..) => None,
    }
}

/// What follows from a refusal for want of room.
#[derive(Copy, Clone, Debug, PartialEq, Eq, Structural)]
pub enum Refused {
    /// Time is up.
    GiveUp,
    /// There is so much time left to wait for room.
    Wait(Duration),
}

/// What follows from a refusal at `now` of one who waits until `deadline`.
pub open spec fn after_refusal(now: Instant, deadline: Instant) -> Refused {
    if now.nanos >= deadline.nanos {
        Refused::GiveUp
    } else {
        Refused::Wait(
            Duration { nanos: crate::time::clamp_nanos(deadline.nanos - now.nanos) as u128 },
        )
    }
}

/// View of the counters.
#[verifier::ext_equal]
pub struct StatsView {
    pub enqueued: int,
    pub dequeued: int,
    pub expired: int,
    pub dropped: int,
    pub rejected_global: int,
    pub rejected_tenant: int,
    pub timeout_rejected: int,
    pub dropped_policy: int,
    pub queue_len_estimate: int,
    pub queue_time_sum_ns: int,
    pub queue_time_samples: int,
    pub queue_time_buckets: Seq<int>,
}

/// Bucket that a queue time falls into: the first whose bound is not below it.
pub open spec fn bucket_of(ns: int) -> int {
    choose|i: int|
        0 <= i < bucket_bounds().len() && ns <= #[trigger] bucket_bounds()[i] && forall|j: int|
            0 <= j < i ==> ns > #[trigger] bucket_bounds()[j]
}

impl StatsView {
    /// All counters at zero.
    pub open spec fn zero() -> StatsView {
        StatsView {
            enqueued: 0,
            dequeued: 0,
            expired: 0,
            dropped: 0,
            rejected_global: 0,
            rejected_tenant: 0,
            timeout_rejected: 0,
            dropped_policy: 0,
            queue_len_estimate: 0,
            queue_time_sum_ns: 0,
            queue_time_samples: 0,
            queue_time_buckets: Seq::new(bucket_bounds().len(), |i: int| 0int),
        }
    }

    /// One more observation of a queue time.
    pub open spec fn timed(self, ns: int) -> StatsView {
        StatsView {
            queue_time_sum_ns: sat(self.queue_time_sum_ns + ns),
            queue_time_samples: sat(self.queue_time_samples + 1),
            queue_time_buckets: self.queue_time_buckets.update(
                bucket_of(ns),
                sat(self.queue_time_buckets[bucket_of(ns)] + 1),
            ),
            ..self
        }
    }

    /// `n` slots of the global capacity given back.
    pub open spec fn released(self, n: int) -> StatsView {
        StatsView {
            queue_len_estimate: if self.queue_len_estimate >= n {
                self.queue_len_estimate - n
            } else {
                0
            },
            ..self
        }
    }

    /// An enqueue turned away.
    pub open spec fn rejected(self, reason: EnqueueRejectReason) -> StatsView {
        let counted = StatsView { dropped: sat(self.dropped + 1), ..self };
        match reason {
            EnqueueRejectReason::GlobalFull => StatsView {
                rejected_global: sat(self.rejected_global + 1),
                ..counted
            },
            EnqueueRejectReason::TenantFull => StatsView {
                rejected_tenant: sat(self.rejected_tenant + 1),
                ..counted
            },
            EnqueueRejectReason::Timeout => StatsView {
                timeout_rejected: sat(self.timeout_rejected + 1),
                ..counted
            },
        }
    }

    /// A queued task given up for a new one.
    pub open spec fn replaced(self) -> StatsView {
        StatsView {
            dropped: sat(self.dropped + 1),
            dropped_policy: sat(self.dropped_policy + 1),
            ..self
        }
    }
}

/// View of the top-talker table.
#[verifier::ext_equal]
pub struct TopView {
    pub capacity: nat,
    pub entries: Seq<TenantCount>,
}

impl TopView {
    /// At most `capacity` entries, one per tenant.
    pub open spec fn inv(self) -> bool {
        &&& self.entries.len() <= self.capacity
        &&& forall|i: int, j: int|
            0 <= i < j < self.entries.len() ==> (#[trigger] self.entries[i]).tenant != (
            #[trigger] self.entries[j]).tenant
    }

    /// The tenant has an entry.
    pub open spec fn tracks(self, tenant: TenantKey) -> bool {
        exists|i: int| 0 <= i < self.entries.len() && (#[trigger] self.entries[i]).tenant == tenant
    }

    /// Where the tenant's entry is.
    pub open spec fn slot_of(self, tenant: TenantKey) -> int {
        choose|i: int| 0 <= i < self.entries.len() && (#[trigger] self.entries[i]).tenant == tenant
    }

    /// `i` is the first of the entries with the lowest count.
    pub open spec fn is_lowest(self, i: int) -> bool {
        &&& 0 <= i < self.entries.len()
        &&& forall|j: int|
            0 <= j < self.entries.len() ==> self.entries[i].count <= (
            #[trigger] self.entries[j]).count
        &&& forall|j: int| 0 <= j < i ==> self.entries[i].count < (#[trigger] self.entries[j]).count
    }

    /// `delta` more observations of `tenant`. A tenant without an entry takes a
    /// free one, or else the lowest one with the count it had.
    pub open spec fn record(self, tenant: TenantKey, delta: u64) -> TopView {
        if self.capacity == 0 {
            self
        } else if self.tracks(tenant) {
            let i = self.slot_of(tenant);
            let count = sat(self.entries[i].count + delta) as u64;
            TopView { entries: self.entries.update(i, TenantCount { tenant, count }), ..self }
        } else if self.entries.len() < self.capacity {
            TopView { entries: self.entries.push(TenantCount { tenant, count: delta }), ..self }
        } else {
            let i = choose|i: int| self.is_lowest(i);
            let count = sat(self.entries[i].count + delta) as u64;
            TopView { entries: self.entries.update(i, TenantCount { tenant, count }), ..self }
        }
    }
}

/// The histogram, bound by bound.
pub open spec fn histogram(stats: StatsView) -> Seq<QueueTimeBucket> {
    Seq::new(
        bucket_bounds().len(),
        |i: int|
            QueueTimeBucket {
                le_ns: bucket_bounds()[i],
                count: stats.queue_time_buckets[i] as u64,
            },
    )
}

/// Observations in all buckets.
pub open spec fn observations(buckets: Seq<QueueTimeBucket>) -> int
    decreases buckets.len(),
{
    if buckets.len() == 0 {
        0
    } else {
        observations(buckets.drop_last()) + buckets.last().count
    }
}

/// `hundredths` hundredths of `total`, rounded up.
pub open spec fn rank_of(total: int, hundredths: int) -> int {
    (total * hundredths + 99) / 100
}

/// The first `i + 1` buckets are the fewest that hold `target` observations.
pub open spec fn reaches(buckets: Seq<QueueTimeBucket>, target: int, i: int) -> bool {
    &&& 0 <= i < buckets.len()
    &&& observations(buckets.take(i + 1)) >= target
    &&& forall|j: int| 0 <= j < i ==> observations(#[trigger] buckets.take(j + 1)) < target
}

/// Upper bound of the bucket in which the given share of the observations is
/// reached; zero if there are none.
pub open spec fn percentile(buckets: Seq<QueueTimeBucket>, hundredths: int) -> int {
    let total = observations(buckets);
    if total == 0 {
        0
    } else {
        let target = rank_of(total, hundredths);
        buckets[choose|i: int| reaches(buckets, target, i)].le_ns as int
    }
}

/// The rank can be had without multiplying the total.
pub proof fn lemma_rank(total: int, hundredths: int)
    requires
        0 <= total,
        0 <= hundredths <= 100,
    ensures
        rank_of(total, hundredths) == total / 100 * hundredths + (total % 100 * hundredths + 99)
            / 100,
{
    let whole = total / 100;
    let part = total % 100;
    assert(total * hundredths + 99 == 100 * (whole * hundredths) + (part * hundredths + 99))
        by (nonlinear_arith)
        requires
            total == 100 * whole + part,
    ;
    let x = whole * hundredths;
    let y = part * hundredths + 99;
    assert((100 * x + y) / 100 == x + y / 100);
}

/// The rank is no more than the total.
pub proof fn lemma_rank_bounds(total: int, hundredths: int)
    requires
        0 <= total,
        0 <= hundredths <= 100,
    ensures
        0 <= rank_of(total, hundredths) <= total,
{
    assert(0 <= total * hundredths <= total * 100) by (nonlinear_arith)
        requires
            0 <= total,
            0 <= hundredths <= 100,
    ;
}

/// Only one bucket reaches a target first.
pub proof fn lemma_reached(buckets: Seq<QueueTimeBucket>, target: int, i: int)
    requires
        reaches(buckets, target, i),
    ensures
        (choose|k: int| reaches(buckets, target, k)) == i,
{
    let k = choose|k: int| reaches(buckets, target, k);
    assert(reaches(buckets, target, k));
    if k < i {
        assert(observations(buckets.take(k + 1)) < target);
    }
    if i < k {
        assert(observations(buckets.take(i + 1)) < target);
    }
}

/// `sorted` lists `entries[from[0]]`, `entries[from[1]]` and so on: each entry
/// once, higher counts first, equal counts in the order of `entries`.
pub open spec fn ranked_by(
    entries: Seq<TenantCount>,
    sorted: Seq<TenantCount>,
    from: Seq<int>,
) -> bool {
    &&& sorted.len() == entries.len()
    &&& from.len() == entries.len()
    &&& from.no_duplicates()
    &&& forall|i: int|
        0 <= i < from.len() ==> 0 <= #[trigger] from[i] < entries.len() && sorted[i]
            == entries[from[i]]
    &&& forall|i: int, j: int|
        0 <= i < j < sorted.len() ==> (#[trigger] sorted[i]).count > (#[trigger] sorted[j]).count
            || (sorted[i].count == sorted[j].count && from[i] < from[j])
}

/// `sorted` is `entries` by falling count, equal counts in the order of `entries`.
pub open spec fn ranking(entries: Seq<TenantCount>, sorted: Seq<TenantCount>) -> bool {
    exists|from: Seq<int>| ranked_by(entries, sorted, from)
}

/// A further entry goes in front of the entries with lower counts.
pub proof fn lemma_ranked_insert(
    entries: Seq<TenantCount>,
    sorted: Seq<TenantCount>,
    from: Seq<int>,
    entry: TenantCount,
    at: int,
)
    requires
        ranked_by(entries, sorted, from),
        0 <= at <= sorted.len(),
        at > 0 ==> sorted[at - 1].count >= entry.count,
        forall|j: int| at <= j < sorted.len() ==> (#[trigger] sorted[j]).count < entry.count,
    ensures
        ranked_by(
            entries.push(entry),
            sorted.insert(at, entry),
            from.insert(at, entries.len() as int),
        ),
{
    let sorted2 = sorted.insert(at, entry);
    let from2 = from.insert(at, entries.len() as int);
    let entries2 = entries.push(entry);
    assert forall|i: int, j: int| 0 <= i < j < from2.len() implies from2[i] != from2[j] by {
        let i0 = if i < at { i } else { i - 1 };
        let j0 = if j < at { j } else { j - 1 };
        if i != at && j != at {
            assert(from[i0] != from[j0]);
        } else if i == at {
            assert(0 <= from[j0] < entries.len());
        } else {
            assert(0 <= from[i0] < entries.len());
        }
    }
    assert forall|i: int| 0 <= i < from2.len() implies 0 <= #[trigger] from2[i] < entries2.len()
        && sorted2[i] == entries2[from2[i]] by {
        if i < at {
            assert(0 <= from[i] < entries.len());
        } else if i > at {
            assert(0 <= from[i - 1] < entries.len());
        }
    }
    assert forall|i: int, j: int| 0 <= i < j < sorted2.len() implies (
    #[trigger] sorted2[i]).count > (#[trigger] sorted2[j]).count || (sorted2[i].count
        == sorted2[j].count && from2[i] < from2[j]) by {
        if i == at {
            assert(sorted2[j] == sorted[j - 1]);
        } else if j == at {
            assert(sorted2[i] == sorted[i]);
            assert(0 <= from[i] < entries.len());
            if i < at - 1 {
                assert(sorted[i].count >= sorted[at - 1].count);
            }
        } else {
            let i0 = if i < at { i } else { i - 1 };
            let j0 = if j < at { j } else { j - 1 };
            assert(sorted2[i] == sorted[i0]);
            assert(sorted2[j] == sorted[j0]);
            assert(from2[i] == from[i0]);
            assert(from2[j] == from[j0]);
        }
    }
}

/// View of the bookkeeping that all shards share.
#[verifier::ext_equal]
pub struct BooksView<T> {
    /// Numbers of the live tasks.
    pub pending: Set<u64>,
    /// Numbers of the tasks that were cancelled and still sit in a lane.
    pub cancelled: Set<u64>,
    /// Tenant and lane in which each queued number sits.
    pub home: Map<u64, (u64, int)>,
    /// Last number handed out.
    pub last_id: int,
    pub stats: StatsView,
    pub top: TopView,
    /// Periodic compactions so far.
    pub purge_runs: int,
    /// Something happened that waiting threads want to know of.
    pub wake: bool,
    /// Entries that have left the queues and were not handed out, until they are cleared
    /// away.
    pub removed: Seq<QueueEntry<T>>,
}

impl<T> BooksView<T> {
    /// Nothing queued, nothing counted.
    pub open spec fn initial(capacity: nat) -> BooksView<T> {
        BooksView {
            pending: Set::empty(),
            cancelled: Set::empty(),
            home: Map::empty(),
            last_id: 0,
            stats: StatsView::zero(),
            top: TopView { capacity, entries: Seq::empty() },
            purge_runs: 0,
            wake: false,
            removed: Seq::empty(),
        }
    }

    /// What the bookkeeping keeps: a number is live or cancelled, never both,
    /// exactly while it is queued, and the queue length counts the live ones.
    pub open spec fn inv(self) -> bool {
        &&& self.home.dom() =~= self.pending.union(self.cancelled)
        &&& self.pending.disjoint(self.cancelled)
        &&& self.pending.finite()
        &&& self.stats.queue_len_estimate == self.pending.len()
        &&& 0 <= self.last_id <= u64::MAX
        &&& forall|id: u64| #[trigger] self.home.contains_key(id) ==> 1 <= id <= self.last_id
        &&& self.top.inv()
        &&& self.stats.queue_time_buckets.len() == bucket_bounds().len()
    }

    /// The counters are numbers of things, and can be held in a `u64`.
    pub open spec fn counted(self) -> bool {
        &&& 0 <= self.stats.enqueued <= u64::MAX
        &&& 0 <= self.stats.dequeued <= u64::MAX
        &&& 0 <= self.stats.expired <= u64::MAX
        &&& 0 <= self.stats.dropped <= u64::MAX
        &&& 0 <= self.stats.rejected_global <= u64::MAX
        &&& 0 <= self.stats.rejected_tenant <= u64::MAX
        &&& 0 <= self.stats.timeout_rejected <= u64::MAX
        &&& 0 <= self.stats.dropped_policy <= u64::MAX
        &&& 0 <= self.stats.queue_time_samples <= u64::MAX
        &&& self.stats.queue_time_buckets.len() == bucket_bounds().len()
        &&& forall|i: int|
            0 <= i < self.stats.queue_time_buckets.len() ==> 0 <= (
            #[trigger] self.stats.queue_time_buckets[i]) <= u64::MAX
    }

    /// The entry will never be handed out: it was cancelled or has expired.
    pub open spec fn stale(self, entry: QueueEntry<T>, now: Instant) -> bool {
        self.cancelled.contains(entry.id) || entry.task.expired(now)
    }

    /// Removal of a stale entry: a cancelled one gave its slot back when it was
    /// cancelled, an expired one does so now and is counted.
    pub open spec fn discard(self, entry: QueueEntry<T>) -> BooksView<T> {
        if self.cancelled.contains(entry.id) {
            BooksView {
                cancelled: self.cancelled.remove(entry.id),
                home: self.home.remove(entry.id),
                removed: self.removed.push(entry),
                ..self
            }
        } else {
            BooksView {
                pending: self.pending.remove(entry.id),
                home: self.home.remove(entry.id),
                removed: self.removed.push(entry),
                stats: StatsView {
                    expired: sat(self.stats.expired + 1),
                    ..self.stats
                }.released(1),
                wake: true,
                ..self
            }
        }
    }

    /// Removal of a live entry that makes room for a new one, which takes over
    /// its slot.
    pub open spec fn replace(self, entry: QueueEntry<T>) -> BooksView<T> {
        BooksView {
            pending: self.pending.remove(entry.id),
            home: self.home.remove(entry.id),
            stats: self.stats.replaced(),
            removed: self.removed.push(entry),
            ..self
        }
    }

    /// Removal of a live entry that is handed out at `now`.
    pub open spec fn deliver(self, tenant: u64, entry: QueueEntry<T>, now: Instant) -> BooksView<T> {
        BooksView {
            pending: self.pending.remove(entry.id),
            home: self.home.remove(entry.id),
            stats: StatsView {
                dequeued: sat(self.stats.dequeued + 1),
                ..self.stats
            }.released(1).timed(crate::time::elapsed_nanos(entry.task.enqueue_ts, now)),
            top: self.top.record(TenantKey(tenant), 1),
            wake: true,
            ..self
        }
    }

    /// A number for a new entry in the given lane of the tenant. The entry takes
    /// a slot of its own unless it takes over that of a replaced one.
    pub open spec fn enroll(self, tenant: u64, lane: int, own_slot: bool) -> BooksView<T> {
        let id = (self.last_id + 1) as u64;
        BooksView {
            pending: self.pending.insert(id),
            home: self.home.insert(id, (tenant, lane)),
            last_id: self.last_id + 1,
            stats: StatsView {
                enqueued: sat(self.stats.enqueued + 1),
                queue_len_estimate: self.stats.queue_len_estimate + if own_slot {
                    1int
                } else {
                    0
                },
                ..self.stats
            },
            ..self
        }
    }

    /// An enqueue turned away.
    pub open spec fn reject(self, reason: EnqueueRejectReason) -> BooksView<T> {
        BooksView { stats: self.stats.rejected(reason), ..self }
    }

    /// A live number marked as cancelled: its slot is free from now on.
    pub open spec fn cancel(self, id: u64) -> BooksView<T> {
        if self.pending.contains(id) {
            BooksView {
                pending: self.pending.remove(id),
                cancelled: self.cancelled.insert(id),
                stats: self.stats.released(1),
                wake: true,
                ..self
            }
        } else {
            self
        }
    }

    /// No slot is left in the global capacity, or no number.
    pub open spec fn global_full(self, limits: Limits) -> bool {
        self.stats.queue_len_estimate >= limits.max_global || self.last_id >= u64::MAX
    }
}

/// View of one priority lane of a tenant.
#[verifier::ext_equal]
pub struct LaneView<T> {
    /// Entries, the next one to go first.
    pub queue: Seq<QueueEntry<T>>,
    /// Unspent budget.
    pub deficit: int,
    /// The tenant is in the shard's ring for this priority.
    pub active: bool,
}

/// Front of a lane after the stale entries before the first good one are gone.
pub open spec fn strip<T>(books: BooksView<T>, queue: Seq<QueueEntry<T>>, now: Instant) -> (
    BooksView<T>,
    Seq<QueueEntry<T>>,
)
    decreases queue.len(),
{
    if queue.len() > 0 && books.stale(queue[0], now) {
        strip(books.discard(queue[0]), queue.drop_first(), now)
    } else {
        (books, queue)
    }
}

/// A lane after all its stale entries are gone.
pub open spec fn purge<T>(books: BooksView<T>, queue: Seq<QueueEntry<T>>, now: Instant) -> (
    BooksView<T>,
    Seq<QueueEntry<T>>,
)
    decreases queue.len(),
{
    if queue.len() == 0 {
        (books, queue)
    } else {
        let (books1, kept) = purge(books, queue.drop_last(), now);
        if books1.stale(queue.last(), now) {
            (books1.discard(queue.last()), kept)
        } else {
            (books1, kept.push(queue.last()))
        }
    }
}

/// View of a tenant.
#[verifier::ext_equal]
pub struct TenantView<T> {
    pub lanes: Seq<LaneView<T>>,
    /// Budget granted per round.
    pub quantum: int,
    /// Enqueues since the last periodic compaction.
    pub since_purge: int,
}

impl<T> TenantView<T> {
    /// A tenant nothing was ever queued for.
    pub open spec fn fresh(quantum: int) -> TenantView<T> {
        TenantView {
            lanes: Seq::new(
                LANES as nat,
                |l: int| LaneView { queue: Seq::empty(), deficit: 0, active: false },
            ),
            quantum,
            since_purge: 0,
        }
    }

    /// Entries in all lanes, stale ones included.
    pub open spec fn total_len(self) -> nat {
        self.lanes[0].queue.len() + self.lanes[1].queue.len() + self.lanes[2].queue.len()
    }

    /// The tenant with another queue in the given lane.
    pub open spec fn with_queue(self, lane: int, queue: Seq<QueueEntry<T>>) -> TenantView<T> {
        TenantView {
            lanes: self.lanes.update(lane, LaneView { queue, ..self.lanes[lane] }),
            ..self
        }
    }

    /// The tenant after the first `n` lanes were purged, one after the other.
    pub open spec fn purged(self, books: BooksView<T>, n: nat, now: Instant) -> (
        BooksView<T>,
        TenantView<T>,
    )
        decreases n,
    {
        if n == 0 {
            (books, self)
        } else {
            let (books1, tenant1) = self.purged(books, (n - 1) as nat, now);
            let (books2, queue) = purge(books1, tenant1.lanes[n - 1].queue, now);
            (books2, tenant1.with_queue(n - 1, queue))
        }
    }

    /// The tenant has as many entries as it may have.
    pub open spec fn full(self, limits: Limits) -> bool {
        self.total_len() >= limits.max_per_tenant
    }

    /// Upkeep before an enqueue: every `PURGE_INTERVAL` enqueues, and whenever a
    /// limit is hit, stale entries are compacted so that limits bind live work only.
    pub open spec fn tidied(self, books: BooksView<T>, limits: Limits, now: Instant) -> (
        BooksView<T>,
        TenantView<T>,
    ) {
        if self.since_purge + 1 >= PURGE_INTERVAL {
            let (books1, tenant1) = self.purged(books, LANES as nat, now);
            (
                BooksView { purge_runs: sat(books1.purge_runs + 1), ..books1 },
                TenantView { since_purge: 0, ..tenant1 },
            )
        } else {
            let counted = TenantView { since_purge: self.since_purge + 1, ..self };
            if counted.full(limits) || books.global_full(limits) {
                counted.purged(books, LANES as nat, now)
            } else {
                (books, counted)
            }
        }
    }

    /// Lane that gives up an entry for a new one of the given rank: the least
    /// urgent lane with entries, but none more urgent than the new one.
    pub open spec fn victim_lane(self, rank: int) -> Option<int> {
        if self.lanes[2].queue.len() > 0 {
            Some(2)
        } else if rank <= 1 && self.lanes[1].queue.len() > 0 {
            Some(1)
        } else if rank == 0 && self.lanes[0].queue.len() > 0 {
            Some(0)
        } else {
            None
        }
    }

    /// Position in a lane of the entry that the strategy gives up.
    pub open spec fn victim_position(self, lane: int, strategy: DropStrategy) -> int {
        match strategy {
            DropStrategy::Oldest => 0,
            DropStrategy::Newest => self.lanes[lane].queue.len() - 1,
        }
    }
}

/// View of a shard.
#[verifier::ext_equal]
pub struct ShardView<T> {
    pub tenants: Map<u64, TenantView<T>>,
    /// For each priority, the tenants that have entries there, in turn order.
    pub rings: Seq<Seq<u64>>,
}

impl<T> ShardView<T> {
    /// A shard without tenants.
    pub open spec fn empty() -> ShardView<T> {
        ShardView { tenants: Map::empty(), rings: Seq::new(LANES as nat, |l: int| Seq::empty()) }
    }

    /// Some tenant waits for its turn.
    pub open spec fn has_work(self) -> bool {
        self.rings[0].len() > 0 || self.rings[1].len() > 0 || self.rings[2].len() > 0
    }

    /// The tenant's state, or that of a tenant first seen now.
    pub open spec fn tenant_or_fresh(self, tenant: u64, quantum: int) -> TenantView<T> {
        if self.tenants.contains_key(tenant) {
            self.tenants[tenant]
        } else {
            TenantView::fresh(quantum)
        }
    }

    /// What is true of a shard at all times. Tenants are those of shard `index` of
    /// `count`; a tenant is in the ring of a priority exactly once while the lane
    /// is active, and every lane with entries is active; entries are in the lane
    /// of their priority, in the order in which they came, and the bookkeeping
    /// knows where each one is.
    pub open spec fn inv(self, home: Map<u64, (u64, int)>, index: int, count: nat) -> bool {
        &&& self.rings.len() == LANES
        &&& forall|t: u64| #[trigger]
            self.tenants.contains_key(t) ==> shard_of(t, count) == index && self.tenant_inv(t, home)
        &&& forall|l: int|
            0 <= l < LANES ==> (#[trigger] self.rings[l]).no_duplicates()
        &&& forall|l: int, p: int|
            0 <= l < LANES && 0 <= p < self.rings[l].len() ==> self.tenants.contains_key(
                #[trigger] self.rings[l][p],
            )
        &&& forall|id: u64| #[trigger]
            home.contains_key(id) && shard_of(home[id].0, count) == index ==> self.holds(
                home[id].0,
                home[id].1,
                id,
            )
    }

    /// No tenant has more entries than it may have.
    pub open spec fn within(self, limits: Limits) -> bool {
        forall|t: u64| #[trigger]
            self.tenants.contains_key(t) ==> self.tenants[t].total_len() <= limits.max_per_tenant
    }

    /// The part of the invariant that turns rely on: every tenant in a ring is one
    /// of the shard's, and budgets are in range.
    pub open spec fn sound(self) -> bool {
        &&& self.rings.len() == LANES
        &&& forall|l: int, p: int|
            0 <= l < LANES && 0 <= p < self.rings[l].len() ==> self.tenants.contains_key(
                #[trigger] self.rings[l][p],
            )
        &&& forall|t: u64| #[trigger]
            self.tenants.contains_key(t) ==> self.tenants[t].lanes.len() == LANES && 1
                <= self.tenants[t].quantum <= i64::MAX && self.tenants[t].since_purge
                < PURGE_INTERVAL
        &&& forall|t: u64, l: int|
            self.tenants.contains_key(t) && 0 <= l < LANES ==> 0 <= (
            #[trigger] self.tenants[t].lanes[l]).deficit <= i64::MAX
    }

    /// The lane has an entry with this number.
    pub open spec fn holds(self, tenant: u64, lane: int, id: u64) -> bool {
        &&& 0 <= lane < LANES
        &&& self.tenants.contains_key(tenant)
        &&& exists|p: int|
            0 <= p < self.tenants[tenant].lanes[lane].queue.len() && (
            #[trigger] self.tenants[tenant].lanes[lane].queue[p]).id == id
    }

    /// What is true of one tenant of the shard.
    pub open spec fn tenant_inv(self, t: u64, home: Map<u64, (u64, int)>) -> bool {
        let tenant = self.tenants[t];
        &&& tenant.lanes.len() == LANES
        &&& 1 <= tenant.quantum <= i64::MAX
        &&& 0 <= tenant.since_purge < PURGE_INTERVAL
        &&& forall|l: int| 0 <= l < LANES ==> #[trigger] self.lane_inv(t, l, home)
    }

    /// What is true of one lane of the shard.
    pub open spec fn lane_inv(self, t: u64, l: int, home: Map<u64, (u64, int)>) -> bool {
        let lane = self.tenants[t].lanes[l];
        &&& 0 <= lane.deficit <= i64::MAX
        &&& lane.active <==> self.rings[l].contains(t)
        &&& lane.queue.len() > 0 ==> lane.active
        &&& queue_inv(lane.queue, t, l, home)
    }

    /// One turn in the ring of priority `l`, which has a tenant in front: its stale
    /// front entries go; if nothing is left, the tenant leaves the ring; if its
    /// budget covers the cost of its next task, that task is handed out; if not,
    /// the budget grows by its quantum and the tenant goes to the back.
    pub open spec fn turn(self, books: BooksView<T>, l: int, now: Instant) -> (
        ShardView<T>,
        BooksView<T>,
        Option<(u64, QueueEntry<T>)>,
    ) {
        let t = self.rings[l][0];
        let rest = self.rings[l].drop_first();
        let tenant = self.tenants[t];
        let lane = tenant.lanes[l];
        let (books1, queue) = strip(books, lane.queue, now);
        if queue.len() == 0 {
            (
                self.settled(t, l, LaneView { queue, active: false, ..lane }, rest),
                books1,
                None,
            )
        } else {
            let cost = budget(queue[0].task.cost as int);
            if lane.deficit < cost {
                let deficit = budget(lane.deficit + tenant.quantum);
                (
                    self.settled(t, l, LaneView { queue, deficit, ..lane }, rest.push(t)),
                    books1,
                    None,
                )
            } else {
                let left = queue.drop_first();
                let after = LaneView {
                    queue: left,
                    deficit: lane.deficit - cost,
                    active: lane.active && left.len() > 0,
                };
                (
                    self.settled(
                        t,
                        l,
                        after,
                        if left.len() > 0 {
                            rest.push(t)
                        } else {
                            rest
                        },
                    ),
                    books1.deliver(t, queue[0], now),
                    Some((t, queue[0])),
                )
            }
        }
    }

    /// The shard with another lane for the tenant and another ring for its priority.
    pub open spec fn settled(self, t: u64, l: int, lane: LaneView<T>, ring: Seq<u64>) -> ShardView<
        T,
    > {
        ShardView {
            tenants: self.tenants.insert(
                t,
                TenantView {
                    lanes: self.tenants[t].lanes.update(l, lane),
                    ..self.tenants[t]
                },
            ),
            rings: self.rings.update(l, ring),
        }
    }

    /// Up to `turns` turns in the ring of priority `l`, until one hands out a task.
    pub open spec fn pass(self, books: BooksView<T>, l: int, turns: nat, now: Instant) -> (
        ShardView<T>,
        BooksView<T>,
        Option<(u64, QueueEntry<T>)>,
    )
        decreases turns,
    {
        if turns == 0 || self.rings[l].len() == 0 {
            (self, books, None)
        } else {
            let (shard1, books1, found) = self.turn(books, l, now);
            if found is Some {
                (shard1, books1, found)
            } else {
                shard1.pass(books1, l, (turns - 1) as nat, now)
            }
        }
    }

    /// A pass through the rings of the priorities from `l` on, each tenant getting
    /// one turn, until a turn hands out a task.
    pub open spec fn dequeue_from(self, books: BooksView<T>, l: int, now: Instant) -> (
        ShardView<T>,
        BooksView<T>,
        Option<(u64, QueueEntry<T>)>,
    )
        decreases LANES - l,
    {
        if l >= LANES || l < 0 {
            (self, books, None)
        } else {
            let (shard1, books1, found) = self.pass(books, l, self.rings[l].len(), now);
            if found is Some {
                (shard1, books1, found)
            } else {
                shard1.dequeue_from(books1, l + 1, now)
            }
        }
    }

    /// The tenant replaced or added.
    pub open spec fn with_tenant(self, t: u64, tenant: TenantView<T>) -> ShardView<T> {
        ShardView { tenants: self.tenants.insert(t, tenant), ..self }
    }

    /// An entry at the back of the tenant's lane; the tenant joins the ring if it
    /// is not in it.
    pub open spec fn appended(self, t: u64, l: int, entry: QueueEntry<T>) -> ShardView<T> {
        let lane = self.tenants[t].lanes[l];
        self.settled(
            t,
            l,
            LaneView { queue: lane.queue.push(entry), active: true, ..lane },
            if lane.active {
                self.rings[l]
            } else {
                self.rings[l].push(t)
            },
        )
    }
}

/// Entries of a lane: known to be there, of the lane's priority, in order of arrival.
pub open spec fn queue_inv<T>(
    queue: Seq<QueueEntry<T>>,
    t: u64,
    l: int,
    home: Map<u64, (u64, int)>,
) -> bool {
    &&& forall|p: int|
        0 <= p < queue.len() ==> home.contains_key((#[trigger] queue[p]).id) && home[queue[p].id]
            == (t, l) && queue[p].task.priority.rank() == l
    &&& forall|p: int, q: int|
        0 <= p < q < queue.len() ==> (#[trigger] queue[p]).id < (#[trigger] queue[q]).id
}

/// View of the whole scheduler.
#[verifier::ext_equal]
pub struct StateView<T> {
    pub shards: Seq<ShardView<T>>,
    /// Shards with waiting tenants, in turn order.
    pub ready: Seq<usize>,
    /// For each shard, whether it is in `ready`.
    pub shard_active: Seq<bool>,
    pub books: BooksView<T>,
    pub shutdown: ShutdownState,
    /// Static quantum overrides.
    pub quanta: Map<u64, u64>,
    /// Who is asked for the quanta of tenants without an override.
    pub provider: Option<QuantumProvider>,
}

impl<T> StateView<T> {
    /// What is true of the scheduler at all times.
    pub open spec fn inv(self) -> bool {
        &&& self.shards.len() >= 1
        &&& self.shards.len() <= usize::MAX
        &&& self.shard_active.len() == self.shards.len()
        &&& self.books.inv()
        &&& forall|i: int|
            0 <= i < self.shards.len() ==> (#[trigger] self.shards[i]).inv(
                self.books.home,
                i,
                self.shards.len(),
            )
        &&& self.ready.no_duplicates()
        &&& forall|p: int| 0 <= p < self.ready.len() ==> (#[trigger] self.ready[p]) < self.shards.len()
        &&& forall|i: int|
            0 <= i < self.shards.len() ==> (#[trigger] self.shard_active[i] <==> self.ready.contains(
                i as usize,
            ))
        &&& forall|i: int|
            0 <= i < self.shards.len() ==> ((#[trigger] self.shards[i]).has_work()
                ==> self.shard_active[i])
    }

    /// The limits hold: no more live tasks than the global capacity, and no tenant
    /// with more entries than it may have.
    pub open spec fn within(self, limits: Limits) -> bool {
        &&& self.books.stats.queue_len_estimate <= limits.max_global
        &&& forall|i: int|
            0 <= i < self.shards.len() ==> (#[trigger] self.shards[i]).within(limits)
    }

    /// The states agree on what is settled once and for all.
    pub open spec fn same_shape(self, other: StateView<T>) -> bool {
        &&& self.shards.len() == other.shards.len()
        &&& self.books.top.capacity == other.books.top.capacity
    }

    /// A scheduler nothing was ever queued in.
    pub open spec fn initial(
        count: nat,
        capacity: nat,
        quanta: Map<u64, u64>,
        provider: Option<QuantumProvider>,
    ) -> StateView<T> {
        StateView {
            shards: Seq::new(count, |i: int| ShardView::empty()),
            ready: Seq::empty(),
            shard_active: Seq::new(count, |i: int| false),
            books: BooksView::initial(capacity),
            shutdown: ShutdownState::Open,
            quanta,
            provider,
        }
    }

    /// What is true at all times of a scheduler made with these settings.
    pub open spec fn kept(self, settings: Settings) -> bool {
        &&& self.inv()
        &&& self.within(settings.limits)
        &&& self.shards.len() == settings.shards
        &&& self.books.top.capacity == settings.top_capacity
    }

    /// The shard that looks after the tenant.
    pub open spec fn shard_index(self, tenant: u64) -> int {
        shard_of(tenant, self.shards.len())
    }

    /// The tenant's state; meaningful for tenants the scheduler has seen.
    pub open spec fn tenant(self, t: u64) -> TenantView<T> {
        self.shards[self.shard_index(t)].tenants[t]
    }

    /// The scheduler has seen the tenant.
    pub open spec fn knows(self, t: u64) -> bool {
        self.shards[self.shard_index(t)].tenants.contains_key(t)
    }

    /// Nothing more will be handed out.
    pub open spec fn finished(self) -> bool {
        match self.shutdown {
            ShutdownState::Open => false,
            ShutdownState::Drain => self.books.stats.queue_len_estimate == 0,
            ShutdownState::Immediate => true,
        }
    }

    /// Shard `i` and the bookkeeping replaced.
    pub open spec fn with_shard(self, i: int, shard: ShardView<T>, books: BooksView<T>) -> StateView<T> {
        StateView { shards: self.shards.update(i, shard), books, ..self }
    }

    /// One turn of the shard in front of `ready`: it hands out a task if it can, and
    /// goes to the back while it has tenants waiting.
    pub open spec fn shard_turn(self, now: Instant) -> (StateView<T>, Option<(u64, QueueEntry<T>)>) {
        let i = self.ready[0] as int;
        let rest = self.ready.drop_first();
        let (shard, books, found) = self.shards[i].dequeue_from(self.books, 0, now);
        let state = self.with_shard(i, shard, books);
        if shard.has_work() {
            (StateView { ready: rest.push(i as usize), ..state }, found)
        } else {
            (
                StateView {
                    ready: rest,
                    shard_active: self.shard_active.update(i, false),
                    ..state
                },
                found,
            )
        }
    }

    /// Up to `turns` shard turns, until one hands out a task.
    pub open spec fn sweep(self, turns: nat, now: Instant) -> (
        StateView<T>,
        Option<(u64, QueueEntry<T>)>,
    )
        decreases turns,
    {
        if turns == 0 || self.ready.len() == 0 {
            (self, None)
        } else {
            let (state1, found) = self.shard_turn(now);
            if found is Some {
                (state1, found)
            } else {
                state1.sweep((turns - 1) as nat, now)
            }
        }
    }

    /// An attempt to dequeue: every shard with waiting tenants gets one turn at most.
    pub open spec fn dequeue(self, now: Instant) -> (StateView<T>, Option<(u64, QueueEntry<T>)>) {
        if self.shutdown == ShutdownState::Immediate {
            (self, None)
        } else {
            self.sweep(self.ready.len(), now)
        }
    }

    /// What a caller is told after an attempt that left this state and found that.
    pub open spec fn answer(self, found: Option<(u64, QueueEntry<T>)>) -> DequeueResult<T> {
        match found {
            Some((t, entry)) => DequeueResult::Task { tenant: TenantKey(t), task: entry.task },
            None => if self.finished() {
                DequeueResult::Closed
            } else {
                DequeueResult::Empty
            },
        }
    }

    /// `quantum` is what the tenant is to be granted per round: what is fixed for
    /// it, or else what the provider may name for it, or else the base.
    pub open spec fn granted(self, t: u64, base: u64, quantum: int) -> bool {
        if self.quanta.contains_key(t) {
            quantum == effective_quantum(Some(self.quanta[t]), None, base)
        } else {
            match self.provider {
                Some(provider) => exists|named: u64|
                    #![trigger effective_quantum(None, Some(named), base)]
                    provider.may_grant(TenantKey(t), named) && quantum == effective_quantum(
                        None,
                        Some(named),
                        base,
                    ),
                None => quantum == effective_quantum(None, None, base),
            }
        }
    }

    /// The quantum does for an enqueue: if the tenant is to be made known by it, it is
    /// what the tenant is to be granted.
    pub open spec fn admits(self, t: u64, base: u64, quantum: int) -> bool {
        &&& 1 <= quantum <= i64::MAX
        &&& self.shutdown == ShutdownState::Open && !self.knows(t) ==> self.granted(
            t,
            base,
            quantum,
        )
    }

    /// All is cleared away that an operation leaves to be done: waiting threads were told,
    /// and entries that have left the queues are gone.
    pub open spec fn cleared(self) -> StateView<T> {
        StateView {
            books: BooksView { wake: false, removed: Seq::empty(), ..self.books },
            ..self
        }
    }

    /// The state before limits are looked at: the tenant is known, and tidied.
    pub open spec fn prepared(
        self,
        limits: Limits,
        t: u64,
        quantum: int,
        now: Instant,
    ) -> StateView<T> {
        let i = self.shard_index(t);
        let (books, tenant) = self.shards[i].tenant_or_fresh(t, quantum).tidied(
            self.books,
            limits,
            now,
        );
        self.with_shard(i, self.shards[i].with_tenant(t, tenant), books)
    }

    /// The task appended to its tenant's lane under a new number. Waiting threads
    /// are told if the lane was empty.
    pub open spec fn accepted(self, t: u64, task: Task<T>, own_slot: bool) -> StateView<T> {
        let i = self.shard_index(t);
        let l = task.priority.rank();
        let entry = QueueEntry { id: (self.books.last_id + 1) as u64, task };
        let books = self.books.enroll(t, l, own_slot);
        let was_empty = self.tenant(t).lanes[l].queue.len() == 0;
        let state = self.with_shard(
            i,
            self.shards[i].appended(t, l, entry),
            BooksView { wake: books.wake || was_empty, ..books },
        );
        if self.shard_active[i] {
            state
        } else {
            StateView {
                ready: self.ready.push(i as usize),
                shard_active: self.shard_active.update(i, true),
                ..state
            }
        }
    }

    /// An attempt to enqueue that drops nothing.
    pub open spec fn try_enqueue(
        self,
        limits: Limits,
        t: u64,
        task: Task<T>,
        quantum: int,
        now: Instant,
    ) -> (StateView<T>, EnqueueAttempt<T>) {
        if self.shutdown != ShutdownState::Open {
            (self, EnqueueAttempt::Closed(task))
        } else {
            let state = self.prepared(limits, t, quantum, now);
            if state.tenant(t).full(limits) {
                (state, EnqueueAttempt::Full(task, EnqueueRejectReason::TenantFull))
            } else if state.books.global_full(limits) {
                (state, EnqueueAttempt::Full(task, EnqueueRejectReason::GlobalFull))
            } else {
                (
                    state.accepted(t, task, true),
                    EnqueueAttempt::Enqueued(TaskHandle((state.books.last_id + 1) as u64)),
                )
            }
        }
    }

    /// An attempt to enqueue with time to wait for room until `deadline`: a refusal is
    /// final, and counted, once time is up.
    pub open spec fn timed_enqueue(
        self,
        limits: Limits,
        t: u64,
        task: Task<T>,
        quantum: int,
        now: Instant,
        deadline: Instant,
    ) -> (StateView<T>, TimedAttempt<T>) {
        let (state, attempt) = self.try_enqueue(limits, t, task, quantum, now);
        match attempt {
            EnqueueAttempt::Enqueued(handle) => (
                state,
                TimedAttempt::Done(EnqueueWithHandleResult::Enqueued(handle)),
            ),
            EnqueueAttempt::Closed(_) => (state, TimedAttempt::Done(EnqueueWithHandleResult::Closed)),
            EnqueueAttempt::Full(back, _) => match after_refusal(now, deadline) {
                Refused::GiveUp => (
                    state.counting_reject(EnqueueRejectReason::Timeout),
                    TimedAttempt::Done(
                        EnqueueWithHandleResult::Rejected(EnqueueRejectReason::Timeout),
                    ),
                ),
                Refused::Wait(left) => (state, TimedAttempt::Wait(back, left)),
            },
        }
    }

    /// `r` and `rest` are what an enqueue that turns tasks away gives, and `after` is
    /// what it leaves, all being cleared away.
    pub open spec fn offered_reject(
        self,
        settings: Settings,
        t: u64,
        task: Task<T>,
        now: Instant,
        r: EnqueueWithHandleResult,
        rest: Rest<T>,
        after: StateView<T>,
    ) -> bool {
        exists|quantum: int|
            self.admits(t, settings.quantum, quantum) && ({
                let (next, result) = #[trigger] self.enqueue_reject(
                    settings.limits,
                    t,
                    task,
                    quantum,
                    now,
                );
                r == result && rest.is_of(next, unplaced(r, task)) && after == next.cleared()
            })
    }

    /// The same of an enqueue that gives up tasks.
    pub open spec fn offered_drop(
        self,
        settings: Settings,
        t: u64,
        task: Task<T>,
        strategy: DropStrategy,
        now: Instant,
        r: EnqueueWithHandleResult,
        rest: Rest<T>,
        after: StateView<T>,
    ) -> bool {
        exists|quantum: int|
            self.admits(t, settings.quantum, quantum) && ({
                let (next, result) = #[trigger] self.enqueue_drop(
                    settings.limits,
                    t,
                    task,
                    strategy,
                    quantum,
                    now,
                );
                r == result && rest.is_of(next, unplaced(r, task)) && after == next.cleared()
            })
    }

    /// The same of an attempt that waits for room.
    pub open spec fn offered_timed(
        self,
        settings: Settings,
        t: u64,
        task: Task<T>,
        now: Instant,
        deadline: Instant,
        r: TimedAttempt<T>,
        rest: Rest<T>,
        after: StateView<T>,
    ) -> bool {
        exists|quantum: int|
            self.admits(t, settings.quantum, quantum) && ({
                let (next, result) = #[trigger] self.timed_enqueue(
                    settings.limits,
                    t,
                    task,
                    quantum,
                    now,
                    deadline,
                );
                r == result && rest.is_of(next, unsettled(r, task)) && after == next.cleared()
            })
    }

    /// The provider has to be asked before a task of the tenant can be accepted.
    pub open spec fn asks(self, t: u64) -> bool {
        &&& self.shutdown == ShutdownState::Open
        &&& !self.knows(t)
        &&& !self.quanta.contains_key(t)
        &&& self.provider is Some
    }

    /// A change of provider is a change for the tenant: it is known, and has no fixed
    /// quantum.
    pub open spec fn depends(self, t: u64) -> bool {
        self.knows(t) && !self.quanta.contains_key(t)
    }

    /// There is an answer, and it is the provider's who is to be asked now.
    pub open spec fn counts(self, answer: Option<Answer>) -> bool {
        self.provider is Some && (answer matches Some(a) && a.provider == self.provider)
    }

    /// The state with a rejection counted.
    pub open spec fn counting_reject(self, reason: EnqueueRejectReason) -> StateView<T> {
        StateView { books: self.books.reject(reason), ..self }
    }

    /// Enqueue under the policy that turns tasks away when a limit is hit.
    pub open spec fn enqueue_reject(
        self,
        limits: Limits,
        t: u64,
        task: Task<T>,
        quantum: int,
        now: Instant,
    ) -> (StateView<T>, EnqueueWithHandleResult) {
        let (state, attempt) = self.try_enqueue(limits, t, task, quantum, now);
        match attempt {
            EnqueueAttempt::Enqueued(handle) => (state, EnqueueWithHandleResult::Enqueued(handle)),
            EnqueueAttempt::Closed(_) => (state, EnqueueWithHandleResult::Closed),
            EnqueueAttempt::Full(_, reason) => (
                state.counting_reject(reason),
                EnqueueWithHandleResult::Rejected(reason),
            ),
        }
    }

    /// The live entry at position `p` of the tenant's lane given up.
    pub open spec fn without_victim(self, t: u64, l: int, p: int) -> StateView<T> {
        let i = self.shard_index(t);
        let tenant = self.tenant(t);
        let queue = tenant.lanes[l].queue;
        self.with_shard(
            i,
            self.shards[i].with_tenant(t, tenant.with_queue(l, queue.remove(p))),
            self.books.replace(queue[p]),
        )
    }

    /// Enqueue under a policy that gives up a task of the same tenant when a limit
    /// is hit, never one more urgent than the new task.
    pub open spec fn enqueue_drop(
        self,
        limits: Limits,
        t: u64,
        task: Task<T>,
        strategy: DropStrategy,
        quantum: int,
        now: Instant,
    ) -> (StateView<T>, EnqueueWithHandleResult) {
        if self.shutdown != ShutdownState::Open {
            (self, EnqueueWithHandleResult::Closed)
        } else {
            let state = self.prepared(limits, t, quantum, now);
            let tenant = state.tenant(t);
            if !tenant.full(limits) && !state.books.global_full(limits) {
                (
                    state.accepted(t, task, true),
                    EnqueueWithHandleResult::Enqueued(
                        TaskHandle((state.books.last_id + 1) as u64),
                    ),
                )
            } else {
                let lane = tenant.victim_lane(task.priority.rank());
                if lane is None || state.books.last_id >= u64::MAX {
                    let reason = if tenant.full(limits) {
                        EnqueueRejectReason::TenantFull
                    } else {
                        EnqueueRejectReason::GlobalFull
                    };
                    (state.counting_reject(reason), EnqueueWithHandleResult::Rejected(reason))
                } else {
                    let l = lane->0;
                    let lighter = state.without_victim(t, l, tenant.victim_position(l, strategy));
                    (
                        lighter.accepted(t, task, false),
                        EnqueueWithHandleResult::Enqueued(
                            TaskHandle((state.books.last_id + 1) as u64),
                        ),
                    )
                }
            }
        }
    }

    /// `stats` is a snapshot of the metrics in this state.
    pub open spec fn reports(self, limits: Limits, stats: SchedulerStats) -> bool {
        let counters = self.books.stats;
        &&& stats.enqueued == counters.enqueued
        &&& stats.dequeued == counters.dequeued
        &&& stats.expired == counters.expired
        &&& stats.dropped == counters.dropped
        &&& stats.rejected_global == counters.rejected_global
        &&& stats.rejected_tenant == counters.rejected_tenant
        &&& stats.timeout_rejected == counters.timeout_rejected
        &&& stats.dropped_policy == counters.dropped_policy
        &&& stats.queue_len_estimate == counters.queue_len_estimate
        &&& stats.max_global == limits.max_global
        &&& stats.queue_time_sum_ns == counters.queue_time_sum_ns
        &&& stats.queue_time_samples == counters.queue_time_samples
        &&& stats.queue_time_histogram@ == histogram(counters)
        &&& stats.queue_time_p95_ns == percentile(histogram(counters), 95)
        &&& stats.queue_time_p99_ns == percentile(histogram(counters), 99)
        &&& ranking(self.books.top.entries, stats.top_tenants@)
    }

    /// Cancellation of the task with this number.
    pub open spec fn cancel(self, id: u64) -> StateView<T> {
        StateView { books: self.books.cancel(id), ..self }
    }

    /// Shutdown requested. Waiting threads are told if that changes anything.
    pub open spec fn close(self, mode: CloseMode) -> StateView<T> {
        let shutdown = self.shutdown.closed_with(mode);
        StateView {
            shutdown,
            books: BooksView {
                wake: self.books.wake || shutdown != self.shutdown,
                ..self.books
            },
            ..self
        }
    }

    /// The tenant's quantum fixed, to at least one.
    pub open spec fn with_fixed(self, t: u64, quantum: u64) -> StateView<T> {
        let value = if quantum == 0 {
            1u64
        } else {
            quantum
        };
        StateView { quanta: self.quanta.insert(t, value), ..self }
    }

    /// The tenant's quantum no longer fixed.
    pub open spec fn without_fixed(self, t: u64) -> StateView<T> {
        StateView { quanta: self.quanta.remove(t), ..self }
    }

    /// Somebody else, or nobody, to be asked for quanta from now on.
    pub open spec fn with_provider(self, provider: Option<QuantumProvider>) -> StateView<T> {
        StateView { provider, ..self }
    }

    /// The two states differ at most in what the tenants are granted per round.
    pub open spec fn same_but_quanta(self, after: StateView<T>) -> bool {
        &&& after.shards.len() == self.shards.len()
        &&& after.ready == self.ready
        &&& after.shard_active == self.shard_active
        &&& after.books == self.books
        &&& after.shutdown == self.shutdown
        &&& after.quanta == self.quanta
        &&& after.provider == self.provider
        &&& forall|i: int|
            0 <= i < self.shards.len() ==> (#[trigger] after.shards[i]).tenants.dom()
                == self.shards[i].tenants.dom() && after.shards[i].rings == self.shards[i].rings
        &&& forall|i: int, t: u64|
            0 <= i < self.shards.len() && (#[trigger] self.shards[i].tenants.contains_key(t))
                ==> after.shards[i].tenants[t] == (TenantView {
                quantum: after.shards[i].tenants[t].quantum,
                ..self.shards[i].tenants[t]
            })
    }

    /// `after` is this state with every known tenant granted anew.
    pub open spec fn regranted(self, after: StateView<T>, base: u64) -> bool {
        &&& self.same_but_quanta(after)
        &&& forall|t: u64|
            self.knows(t) ==> self.granted(t, base, (#[trigger] after.tenant(t)).quantum)
    }

    /// The tenant, if known, with another quantum.
    pub open spec fn with_quantum(self, t: u64, quantum: int) -> StateView<T> {
        if self.knows(t) {
            let i = self.shard_index(t);
            self.with_shard(
                i,
                self.shards[i].with_tenant(t, TenantView { quantum, ..self.tenant(t) }),
                self.books,
            )
        } else {
            self
        }
    }
}

} // verus!
