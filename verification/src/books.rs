//! Bookkeeping shared by all shards: which tasks are live, which were cancelled,
//! and the metrics.
use std::collections::HashSet;

use vstd::prelude::*;

use crate::api::{EnqueueRejectReason, TenantKey};
use crate::metrics::{StatsCounters, TopTenants};
use crate::model::{BooksView, Limits, QueueEntry};
use crate::time::Instant;

verus! {

broadcast use vstd::std_specs::hash::group_hash_axioms;

/// Numbers of the queued tasks, and the metrics.
pub struct Books<T> {
    pending: HashSet<u64>,
    cancelled: HashSet<u64>,
    home: Ghost<Map<u64, (u64, int)>>,
    last_id: u64,
    stats: StatsCounters,
    top: TopTenants,
    purge_runs: u64,
    wake: bool,
    removed: Vec<QueueEntry<T>>,
}

impl<T> View for Books<T> {
    type V = BooksView<T>;

    closed spec fn view(&self) -> BooksView<T> {
        BooksView {
            pending: self.pending@,
            cancelled: self.cancelled@,
            home: self.home@,
            last_id: self.last_id as int,
            stats: self.stats@,
            top: self.top@,
            purge_runs: self.purge_runs as int,
            wake: self.wake,
            removed: self.removed@,
        }
    }
}

impl<T> Books<T> {
    /// Nothing queued, nothing counted.
    pub fn new(top_capacity: usize) -> (b: Books<T>)
        ensures
            b@ == BooksView::<T>::initial(top_capacity as nat),
    {
        let b = Books {
            pending: HashSet::new(),
            cancelled: HashSet::new(),
            home: Ghost(Map::empty()),
            last_id: 0,
            stats: StatsCounters::new(),
            top: TopTenants::new(top_capacity),
            purge_runs: 0,
            wake: false,
            removed: Vec::new(),
        };
        assert(b@ =~= BooksView::<T>::initial(top_capacity as nat));
        b
    }

    /// Whether the entry was cancelled or has expired.
    pub fn is_stale(&self, entry: &QueueEntry<T>, now: Instant) -> (b: bool)
        ensures
            b == self@.stale(*entry, now),
    {
        self.cancelled.contains(&entry.id) || entry.task.is_expired(now)
    }

    /// Takes in a stale entry, to be cleared away.
    pub fn discard(&mut self, entry: QueueEntry<T>)
        ensures
            final(self)@ == old(self)@.discard(entry),
    {
        let id: u64 = entry.id;
        self.removed.push(entry);
        proof {
            self.home@ = self.home@.remove(id);
        }
        if !self.cancelled.remove(&id) {
            self.pending.remove(&id);
            self.stats.expired = self.stats.expired.saturating_add(1);
            self.stats.release_reserved_slot();
            self.wake = true;
        }
        assert(self@ =~= old(self)@.discard(entry));
    }

    /// Takes in a live entry whose slot a new one takes over, to be cleared away.
    pub fn replace(&mut self, entry: QueueEntry<T>)
        ensures
            final(self)@ == old(self)@.replace(entry),
    {
        let id: u64 = entry.id;
        self.removed.push(entry);
        proof {
            self.home@ = self.home@.remove(id);
        }
        self.pending.remove(&id);
        self.stats.record_policy_drop();
        assert(self@ =~= old(self)@.replace(entry));
    }

    /// Forgets a live entry that is handed out.
    pub fn deliver(&mut self, tenant: u64, entry: &QueueEntry<T>, now: Instant)
        requires
            old(self)@.top.inv(),
        ensures
            final(self)@ == old(self)@.deliver(tenant, *entry, now),
            final(self)@.top.inv(),
    {
        proof {
            self.home@ = self.home@.remove(entry.id);
        }
        self.pending.remove(&entry.id);
        self.stats.dequeued = self.stats.dequeued.saturating_add(1);
        self.stats.release_reserved_slot();
        self.stats.record_queue_time(now.nanos_since(entry.task.enqueue_ts));
        self.top.record(TenantKey(tenant), 1);
        self.wake = true;
        assert(self@ =~= old(self)@.deliver(tenant, *entry, now));
    }

    /// Hands out the number for a new entry.
    pub fn enroll(&mut self, tenant: u64, lane: usize, own_slot: bool) -> (id: u64)
        requires
            old(self)@.last_id < u64::MAX,
            own_slot ==> old(self)@.stats.queue_len_estimate < u64::MAX,
        ensures
            final(self)@ == old(self)@.enroll(tenant, lane as int, own_slot),
            id == old(self)@.last_id + 1,
    {
        let id: u64 = self.last_id + 1;
        self.last_id = id;
        self.pending.insert(id);
        proof {
            self.home@ = self.home@.insert(id, (tenant, lane as int));
        }
        self.stats.enqueued = self.stats.enqueued.saturating_add(1);
        if own_slot {
            self.stats.queue_len_estimate = self.stats.queue_len_estimate + 1;
        }
        assert(self@ =~= old(self)@.enroll(tenant, lane as int, own_slot));
        id
    }

    /// Counts an enqueue that was turned away.
    pub fn reject(&mut self, reason: EnqueueRejectReason)
        ensures
            final(self)@ == old(self)@.reject(reason),
    {
        self.stats.record_reject(reason);
        assert(self@ =~= old(self)@.reject(reason));
    }

    /// Marks a live task as cancelled; says whether there was one.
    pub fn cancel(&mut self, id: u64) -> (found: bool)
        ensures
            final(self)@ == old(self)@.cancel(id),
            found == old(self)@.pending.contains(id),
    {
        let found = self.pending.remove(&id);
        if found {
            self.cancelled.insert(id);
            self.stats.release_reserved_slot();
            self.wake = true;
        }
        assert(self@ =~= old(self)@.cancel(id));
        found
    }

    /// Whether no slot of the global capacity is left.
    pub fn global_full(&self, limits: Limits) -> (full: bool)
        ensures
            full == self@.global_full(limits),
            !full ==> self@.stats.queue_len_estimate < u64::MAX,
    {
        self.stats.queue_len_estimate >= limits.max_global as u64 || self.last_id == u64::MAX
    }

    /// Whether no number is left to hand out.
    pub fn out_of_numbers(&self) -> (none_left: bool)
        ensures
            none_left == (self@.last_id >= u64::MAX),
    {
        self.last_id == u64::MAX
    }

    /// Number of live tasks.
    pub fn queue_len(&self) -> (n: u64)
        ensures
            n == self@.stats.queue_len_estimate,
    {
        self.stats.queue_len_estimate
    }

    /// Counts a periodic compaction.
    pub fn count_purge_run(&mut self)
        ensures
            final(self)@ == (BooksView {
                purge_runs: crate::model::sat(old(self)@.purge_runs + 1),
                ..old(self)@
            }),
    {
        self.purge_runs = self.purge_runs.saturating_add(1);
    }

    /// Periodic compactions so far.
    pub fn purge_runs(&self) -> (n: u64)
        ensures
            n == self@.purge_runs,
    {
        self.purge_runs
    }

    /// Notes that waiting threads are to be woken.
    pub fn request_wake(&mut self)
        ensures
            final(self)@ == (BooksView { wake: true, ..old(self)@ }),
    {
        self.wake = true;
    }

    /// Says whether waiting threads are to be woken, and forgets it.
    pub fn take_wake(&mut self) -> (wake: bool)
        ensures
            wake == old(self)@.wake,
            final(self)@ == (BooksView { wake: false, ..old(self)@ }),
    {
        let wake = self.wake;
        self.wake = false;
        wake
    }

    /// Hands over the entries that have left the queues and were not handed out.
    pub fn take_removed(&mut self) -> (removed: Vec<QueueEntry<T>>)
        ensures
            removed@ == old(self)@.removed,
            final(self)@ == (BooksView { removed: Seq::empty(), ..old(self)@ }),
    {
        let mut removed: Vec<QueueEntry<T>> = Vec::new();
        removed.append(&mut self.removed);
        assert(removed@ =~= old(self)@.removed);
        assert(self@ =~= (BooksView { removed: Seq::empty(), ..old(self)@ }));
        removed
    }

    /// The counters.
    pub fn stats(&self) -> (s: &StatsCounters)
        ensures
            s@ == self@.stats,
    {
        &self.stats
    }

    /// The table of top talkers.
    pub fn top(&self) -> (t: &TopTenants)
        ensures
            t@ == self@.top,
    {
        &self.top
    }
}

} // verus!
