//! Counters, the queue time histogram and the table of top talkers.
use vstd::prelude::*;

use crate::api::{EnqueueRejectReason, QueueTimeBucket, TenantCount, TenantKey};
use crate::model;
use crate::model::{StatsView, TopView};

verus! {

/// Upper bounds of the queue time histogram, in nanoseconds.
pub fn queue_time_bounds() -> (bounds: [u64; 12])
    ensures
        bounds@ == model::bucket_bounds(),
{
    let bounds = [
        10_000,
        50_000,
        100_000,
        500_000,
        1_000_000,
        5_000_000,
        10_000_000,
        50_000_000,
        100_000_000,
        500_000_000,
        1_000_000_000,
        u64::MAX,
    ];
    assert(bounds@ =~= model::bucket_bounds());
    bounds
}

/// Counters of a scheduler.
#[derive(Debug)]
pub struct StatsCounters {
    pub enqueued: u64,
    pub dequeued: u64,
    pub expired: u64,
    pub dropped: u64,
    pub rejected_global: u64,
    pub rejected_tenant: u64,
    pub timeout_rejected: u64,
    pub dropped_policy: u64,
    pub queue_len_estimate: u64,
    pub queue_time_sum_ns: u64,
    pub queue_time_samples: u64,
    pub queue_time_buckets: [u64; 12],
}

impl View for StatsCounters {
    type V = StatsView;

    open spec fn view(&self) -> StatsView {
        StatsView {
            enqueued: self.enqueued as int,
            dequeued: self.dequeued as int,
            expired: self.expired as int,
            dropped: self.dropped as int,
            rejected_global: self.rejected_global as int,
            rejected_tenant: self.rejected_tenant as int,
            timeout_rejected: self.timeout_rejected as int,
            dropped_policy: self.dropped_policy as int,
            queue_len_estimate: self.queue_len_estimate as int,
            queue_time_sum_ns: self.queue_time_sum_ns as int,
            queue_time_samples: self.queue_time_samples as int,
            queue_time_buckets: Seq::new(12, |i: int| self.queue_time_buckets@[i] as int),
        }
    }
}

impl StatsCounters {
    /// All counters at zero.
    pub fn new() -> (c: StatsCounters)
        ensures
            c@ == StatsView::zero(),
    {
        let c = StatsCounters {
            enqueued: 0,
            dequeued: 0,
            expired: 0,
            dropped: 0,
            rejected_global: 0,
            rejected_tenant: 0,
            timeout_rejected: 0,
            dropped_policy: 0,
            queue_len_estimate: 0,
            queue_time_sum_ns: 0,
            queue_time_samples: 0,
            queue_time_buckets: [0; 12],
        };
        assert(c@.queue_time_buckets =~= Seq::new(model::bucket_bounds().len(), |i: int| 0int));
        c
    }

    /// Counts one more observation of a queue time.
    pub fn record_queue_time(&mut self, ns: u64)
        ensures
            final(self)@ == old(self)@.timed(ns as int),
    {
        let bounds = queue_time_bounds();
        let mut i: usize = 0;
        while i < 11 && ns > bounds[i]
            invariant
                i <= 11,
                bounds@ == model::bucket_bounds(),
                forall|j: int| 0 <= j < i ==> ns > #[trigger] bounds@[j],
            decreases 11 - i,
        {
            i += 1;
        }
        proof {
            lemma_bucket(ns as int, i as int);
        }
        self.queue_time_sum_ns = self.queue_time_sum_ns.saturating_add(ns);
        self.queue_time_samples = self.queue_time_samples.saturating_add(1);
        let count: u64 = self.queue_time_buckets[i].saturating_add(1);
        self.queue_time_buckets[i] = count;
        assert(self@.queue_time_buckets =~= old(self)@.timed(ns as int).queue_time_buckets);
    }

    /// Gives one slot of the global capacity back.
    pub fn release_reserved_slot(&mut self)
        ensures
            final(self)@ == old(self)@.released(1),
    {
        self.queue_len_estimate = self.queue_len_estimate.saturating_sub(1);
        assert(self@ =~= old(self)@.released(1));
    }

    /// Counts an enqueue that was turned away.
    pub fn record_reject(&mut self, reason: EnqueueRejectReason)
        ensures
            final(self)@ == old(self)@.rejected(reason),
    {
        self.dropped = self.dropped.saturating_add(1);
        match reason {
            EnqueueRejectReason::GlobalFull => {
                self.rejected_global = self.rejected_global.saturating_add(1);
            },
            EnqueueRejectReason::TenantFull => {
                self.rejected_tenant = self.rejected_tenant.saturating_add(1);
            },
            EnqueueRejectReason::Timeout => {
                self.timeout_rejected = self.timeout_rejected.saturating_add(1);
            },
        }
        assert(self@ =~= old(self)@.rejected(reason));
    }

    /// Counts a queued task that was given up for a new one.
    pub fn record_policy_drop(&mut self)
        ensures
            final(self)@ == old(self)@.replaced(),
    {
        self.dropped = self.dropped.saturating_add(1);
        self.dropped_policy = self.dropped_policy.saturating_add(1);
        assert(self@ =~= old(self)@.replaced());
    }

    /// The histogram, bound by bound.
    pub fn histogram(&self) -> (buckets: Vec<QueueTimeBucket>)
        ensures
            buckets@ == model::histogram(self@),
    {
        let bounds = queue_time_bounds();
        let mut buckets: Vec<QueueTimeBucket> = Vec::new();
        for i in 0..12usize
            invariant
                bounds@ == model::bucket_bounds(),
                buckets@ =~= model::histogram(self@).take(i as int),
        {
            buckets.push(
                QueueTimeBucket { le_ns: bounds[i], count: self.queue_time_buckets[i] },
            );
        }
        assert(model::histogram(self@).take(12) =~= model::histogram(self@));
        buckets
    }
}

/// The bucket of a queue time is the only one that fits.
proof fn lemma_bucket(ns: int, i: int)
    requires
        0 <= i < 12,
        i < 11 ==> ns <= model::bucket_bounds()[i],
        ns <= u64::MAX,
        forall|j: int| 0 <= j < i ==> ns > #[trigger] model::bucket_bounds()[j],
    ensures
        model::bucket_of(ns) == i,
{
    let bounds = model::bucket_bounds();
    assert(bounds[11] == u64::MAX);
    let k = model::bucket_of(ns);
    assert(ns <= bounds[i]);
    assert(0 <= k < bounds.len() && ns <= bounds[k] && forall|j: int|
        0 <= j < k ==> ns > #[trigger] bounds[j]);
    if k < i {
        assert(ns > bounds[k]);
    }
    if i < k {
        assert(ns > bounds[i]);
    }
}

/// Upper bound of the bucket in which the given share, in hundredths, of the
/// observations is reached; zero if there are none.
pub fn percentile(buckets: &Vec<QueueTimeBucket>, hundredths: u64) -> (ns: u64)
    requires
        hundredths <= 100,
    ensures
        ns == model::percentile(buckets@, hundredths as int),
{
    let mut total: u128 = 0;
    for i in 0..buckets.len()
        invariant
            total == model::observations(buckets@.take(i as int)),
            total <= i * u64::MAX,
    {
        assert(buckets@.take(i + 1).drop_last() =~= buckets@.take(i as int));
        assert(i * u64::MAX + u64::MAX == (i + 1) * u64::MAX) by (nonlinear_arith);
        assert((i + 1) * u64::MAX <= 0xffff_ffff_ffff_ffff * u64::MAX) by (nonlinear_arith)
            requires
                i + 1 <= 0xffff_ffff_ffff_ffff,
        ;
        total = total + buckets[i].count as u128;
    }
    assert(buckets@.take(buckets@.len() as int) =~= buckets@);
    if total == 0 {
        return 0;
    }
    let whole: u128 = total / 100;
    let part: u128 = total % 100;
    assert(whole * hundredths <= total) by (nonlinear_arith)
        requires
            whole == total / 100,
            hundredths <= 100,
    ;
    assert(part * hundredths <= 100 * 100) by (nonlinear_arith)
        requires
            part < 100,
            hundredths <= 100,
    ;
    let target: u128 = whole * hundredths as u128 + (part * hundredths as u128 + 99) / 100;
    proof {
        model::lemma_rank(total as int, hundredths as int);
    }
    let mut cumulative: u128 = 0;
    for i in 0..buckets.len()
        invariant
            cumulative == model::observations(buckets@.take(i as int)),
            cumulative <= i * u64::MAX,
            target == model::rank_of(total as int, hundredths as int),
            total == model::observations(buckets@),
            total > 0,
            forall|j: int|
                0 <= j < i ==> model::observations(#[trigger] buckets@.take(j + 1)) < target,
    {
        assert(buckets@.take(i + 1).drop_last() =~= buckets@.take(i as int));
        assert(i * u64::MAX + u64::MAX == (i + 1) * u64::MAX) by (nonlinear_arith);
        assert((i + 1) * u64::MAX <= 0xffff_ffff_ffff_ffff * u64::MAX) by (nonlinear_arith)
            requires
                i + 1 <= 0xffff_ffff_ffff_ffff,
        ;
        cumulative = cumulative + buckets[i].count as u128;
        if cumulative >= target {
            proof {
                model::lemma_reached(buckets@, target as int, i as int);
            }
            return buckets[i].le_ns;
        }
    }
    proof {
        let n = buckets@.len();
        model::lemma_rank_bounds(total as int, hundredths as int);
        if n > 0 {
            assert(buckets@.take(n - 1 + 1) =~= buckets@);
        }
        assert(buckets@ =~= Seq::empty() ==> model::observations(buckets@) == 0);
    }
    0
}

/// Bounded table of the tenants that were served most.
#[derive(Debug)]
pub struct TopTenants {
    capacity: usize,
    entries: Vec<TenantCount>,
}

impl View for TopTenants {
    type V = TopView;

    closed spec fn view(&self) -> TopView {
        TopView { capacity: self.capacity as nat, entries: self.entries@ }
    }
}

impl TopTenants {
    /// An empty table of at most `capacity` entries.
    pub fn new(capacity: usize) -> (t: TopTenants)
        ensures
            t@ == (TopView { capacity: capacity as nat, entries: Seq::empty() }),
    {
        TopTenants { capacity, entries: Vec::new() }
    }

    /// Counts `delta` more observations of the tenant.
    pub fn record(&mut self, tenant: TenantKey, delta: u64)
        requires
            old(self)@.inv(),
        ensures
            final(self)@ == old(self)@.record(tenant, delta),
            final(self)@.inv(),
    {
        if self.capacity == 0 {
            return;
        }
        let len: usize = self.entries.len();
        let mut lowest: usize = 0;
        for i in 0..len
            invariant
                *self == *old(self),
                self@.inv(),
                self.capacity > 0,
                len == self.entries@.len(),
                i > 0 ==> lowest < i,
                i == 0 ==> lowest == 0,
                forall|j: int| 0 <= j < i ==> (#[trigger] self.entries@[j]).tenant != tenant,
                forall|j: int|
                    0 <= j < i ==> self.entries@[lowest as int].count <= (
                    #[trigger] self.entries@[j]).count,
                forall|j: int|
                    0 <= j < lowest ==> self.entries@[lowest as int].count < (
                    #[trigger] self.entries@[j]).count,
        {
            if self.entries[i].tenant == tenant {
                let count: u64 = self.entries[i].count.saturating_add(delta);
                proof {
                    assert(self@.entries[i as int].tenant == tenant);
                    assert(self@.slot_of(tenant) == i);
                }
                self.entries[i] = TenantCount { tenant, count };
                return;
            }
            if self.entries[i].count < self.entries[lowest].count {
                lowest = i;
            }
        }
        assert(!self@.tracks(tenant));
        if len < self.capacity {
            self.entries.push(TenantCount { tenant, count: delta });
            return;
        }
        proof {
            assert(self@.is_lowest(lowest as int));
            let k = choose|k: int| self@.is_lowest(k);
            assert(self@.is_lowest(k));
            if k < lowest {
                assert(self@.entries[k].count > self@.entries[lowest as int].count);
            }
            if lowest < k {
                assert(self@.entries[lowest as int].count > self@.entries[k].count);
            }
        }
        let count: u64 = self.entries[lowest].count.saturating_add(delta);
        self.entries[lowest] = TenantCount { tenant, count };
    }

    /// The entries, most served first; entries with the same count stay in the
    /// order in which they are in the table.
    pub fn snapshot(&self) -> (sorted: Vec<TenantCount>)
        ensures
            model::ranking(self@.entries, sorted@),
    {
        ranked(&self.entries)
    }
}

/// The entries by falling count, equal counts in the order of `entries`.
pub fn ranked(entries: &Vec<TenantCount>) -> (sorted: Vec<TenantCount>)
    ensures
        model::ranking(entries@, sorted@),
{
    let mut sorted: Vec<TenantCount> = Vec::new();
    let ghost mut from: Seq<int> = Seq::empty();
    let len: usize = entries.len();
    for i in 0..len
        invariant
            len == entries@.len(),
            model::ranked_by(entries@.take(i as int), sorted@, from),
    {
        let entry = entries[i];
        let mut at: usize = sorted.len();
        while at > 0 && sorted[at - 1].count < entry.count
            invariant
                at <= sorted@.len(),
                forall|j: int|
                    at <= j < sorted@.len() ==> (#[trigger] sorted@[j]).count < entry.count,
            decreases at,
        {
            at -= 1;
        }
        proof {
            model::lemma_ranked_insert(
                entries@.take(i as int),
                sorted@,
                from,
                entry,
                at as int,
            );
            from = from.insert(at as int, i as int);
            assert(entries@.take(i as int).push(entry) =~= entries@.take(i + 1));
        }
        sorted.insert(at, entry);
    }
    assert(entries@.take(len as int) =~= entries@);
    sorted
}

} // verus!
