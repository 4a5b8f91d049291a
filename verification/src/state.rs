//! Tenants and shards: queues, budgets and turns.
use std::collections::{HashMap, VecDeque};

use vstd::prelude::*;

use crate::api::Priority;
use crate::books::Books;
use crate::model;
use crate::model::{
    DropStrategy, LaneView, Limits, QueueEntry, ShardView, TenantView, LANES, PURGE_INTERVAL,
};
use crate::ring::ActiveRing;
use crate::time::Instant;

verus! {

broadcast use vstd::std_specs::hash::group_hash_axioms;

/// Queue of one tenant at one priority, with its budget.
#[derive(Debug)]
pub struct Lane<T> {
    pub queue: VecDeque<QueueEntry<T>>,
    pub deficit: i64,
    pub active: bool,
}

impl<T> View for Lane<T> {
    type V = LaneView<T>;

    open spec fn view(&self) -> LaneView<T> {
        LaneView { queue: self.queue@, deficit: self.deficit as int, active: self.active }
    }
}

impl<T> Lane<T> {
    /// An empty lane without budget.
    pub fn new() -> (lane: Lane<T>)
        ensures
            lane@ == (LaneView::<T> { queue: Seq::empty(), deficit: 0, active: false }),
    {
        Lane { queue: VecDeque::new(), deficit: 0, active: false }
    }
}

/// Removes the stale entries before the first good one.
fn strip_front<T>(queue: &mut VecDeque<QueueEntry<T>>, books: &mut Books<T>, now: Instant)
    ensures
        (final(books)@, final(queue)@) == model::strip(old(books)@, old(queue)@, now),
        old(books)@.top.inv() ==> final(books)@.top.inv(),
{
    while queue.len() > 0 && books.is_stale(&queue[0], now)
        invariant
            model::strip(books@, queue@, now) == model::strip(old(books)@, old(queue)@, now),
            books@.top == old(books)@.top,
        decreases queue@.len(),
    {
        assert(queue@.drop_first() =~= queue@.subrange(1, queue@.len() as int));
        if let Some(entry) = queue.pop_front() {
            books.discard(entry);
        }
    }
}

/// Removes all stale entries.
fn purge_queue<T>(queue: &mut VecDeque<QueueEntry<T>>, books: &mut Books<T>, now: Instant)
    ensures
        (final(books)@, final(queue)@) == model::purge(old(books)@, old(queue)@, now),
{
    let ghost all = queue@;
    let len: usize = queue.len();
    assert(all.take(0) =~= Seq::empty());
    assert(queue@ =~= all.skip(0) + model::purge(books@, all.take(0), now).1);
    for i in 0..len
        invariant
            len == all.len(),
            all == old(queue)@,
            books@ == model::purge(old(books)@, all.take(i as int), now).0,
            queue@ == all.skip(i as int) + model::purge(old(books)@, all.take(i as int), now).1,
    {
        let ghost kept = model::purge(old(books)@, all.take(i as int), now).1;
        proof {
            assert(all.take(i + 1).drop_last() =~= all.take(i as int));
            assert(all.take(i + 1).last() == all[i as int]);
            assert(queue@[0] == all[i as int]);
        }
        let front = queue.pop_front();
        assert(queue@ =~= all.skip(i + 1) + kept);
        if let Some(entry) = front {
            if books.is_stale(&entry, now) {
                books.discard(entry);
            } else {
                queue.push_back(entry);
                assert(queue@ =~= all.skip(i + 1) + kept.push(entry));
            }
        }
    }
    assert(all.take(len as int) =~= all);
    assert(queue@ =~= model::purge(old(books)@, all, now).1);
}

/// Queues and budgets of one tenant.
#[derive(Debug)]
pub struct TenantState<T> {
    pub lanes: [Lane<T>; 3],
    pub quantum: i64,
    pub since_purge: u32,
}

impl<T> View for TenantState<T> {
    type V = TenantView<T>;

    open spec fn view(&self) -> TenantView<T> {
        TenantView {
            lanes: Seq::new(LANES as nat, |l: int| self.lanes@[l]@),
            quantum: self.quantum as int,
            since_purge: self.since_purge as int,
        }
    }
}

impl<T> TenantState<T> {
    /// A tenant nothing was ever queued for.
    pub fn new(quantum: i64) -> (t: TenantState<T>)
        ensures
            t@ == TenantView::<T>::fresh(quantum as int),
    {
        let t = TenantState {
            lanes: [Lane::new(), Lane::new(), Lane::new()],
            quantum,
            since_purge: 0,
        };
        assert(t@ =~= TenantView::<T>::fresh(quantum as int)) by {
            assert(t@.lanes =~= TenantView::<T>::fresh(quantum as int).lanes);
        }
        t
    }

    /// Entries in all lanes, stale ones included, as far as a `usize` can count.
    pub fn total_len(&self) -> (n: usize)
        ensures
            n == if self@.total_len() > usize::MAX {
                usize::MAX as nat
            } else {
                self@.total_len()
            },
    {
        self.lanes[0].queue.len().saturating_add(self.lanes[1].queue.len()).saturating_add(
            self.lanes[2].queue.len(),
        )
    }

    /// Whether the tenant has as many entries as it may have.
    pub fn is_full(&self, limits: Limits) -> (full: bool)
        ensures
            full == self@.full(limits),
    {
        self.total_len() >= limits.max_per_tenant
    }

    /// Removes all stale entries of all lanes.
    pub fn purge(&mut self, books: &mut Books<T>, now: Instant)
        ensures
            (final(books)@, final(self)@) == old(self)@.purged(old(books)@, LANES as nat, now),
    {
        for l in 0..LANES
            invariant
                (books@, self@) == old(self)@.purged(old(books)@, l as nat, now),
        {
            let ghost before = self@;
            purge_queue(&mut self.lanes[l].queue, books, now);
            assert(self@ =~= before.with_queue(l as int, self@.lanes[l as int].queue)) by {
                assert(self@.lanes =~= before.with_queue(
                    l as int,
                    self@.lanes[l as int].queue,
                ).lanes);
            }
        }
    }

    /// Upkeep before an enqueue: compaction every so often, and when a limit is hit.
    pub fn tidy(&mut self, books: &mut Books<T>, limits: Limits, now: Instant)
        requires
            old(self)@.since_purge < PURGE_INTERVAL,
        ensures
            (final(books)@, final(self)@) == old(self)@.tidied(old(books)@, limits, now),
    {
        if self.since_purge + 1 >= PURGE_INTERVAL {
            self.purge(books, now);
            books.count_purge_run();
            self.since_purge = 0;
            assert(self@.lanes =~= old(self)@.tidied(old(books)@, limits, now).1.lanes);
        } else {
            self.since_purge = self.since_purge + 1;
            assert(self@ =~= TenantView { since_purge: old(self)@.since_purge + 1, ..old(self)@ })
                by {
                assert(self@.lanes =~= old(self)@.lanes);
            }
            if self.is_full(limits) || books.global_full(limits) {
                self.purge(books, now);
            }
        }
    }

    /// The lane that gives up an entry for a new task of the given priority.
    pub fn victim_lane(&self, incoming: Priority) -> (lane: Option<usize>)
        ensures
            match lane {
                Some(l) => l < LANES && self@.victim_lane(incoming.rank()) == Some(l as int),
                None => self@.victim_lane(incoming.rank()) is None,
            },
    {
        let rank: usize = incoming.index();
        if self.lanes[2].queue.len() > 0 {
            Some(2)
        } else if rank <= 1 && self.lanes[1].queue.len() > 0 {
            Some(1)
        } else if rank == 0 && self.lanes[0].queue.len() > 0 {
            Some(0)
        } else {
            None
        }
    }

    /// Takes an entry out of the given lane, which has one, by the strategy.
    pub fn drop_from_lane(&mut self, lane: usize, strategy: DropStrategy) -> (dropped: QueueEntry<T>)
        requires
            lane < LANES,
            old(self)@.lanes[lane as int].queue.len() > 0,
        ensures
            ({
                let queue = old(self)@.lanes[lane as int].queue;
                let p = old(self)@.victim_position(lane as int, strategy);
                &&& dropped == queue[p]
                &&& final(self)@ == old(self)@.with_queue(lane as int, queue.remove(p))
            }),
    {
        let ghost queue = self@.lanes[lane as int].queue;
        let ghost p = self@.victim_position(lane as int, strategy);
        let taken = match strategy {
            DropStrategy::Oldest => self.lanes[lane].queue.pop_front(),
            DropStrategy::Newest => self.lanes[lane].queue.pop_back(),
        };
        proof {
            assert(self.lanes@[lane as int].queue@ =~= queue.remove(p));
            assert(self@.lanes =~= old(self)@.with_queue(lane as int, queue.remove(p)).lanes);
        }
        taken.unwrap()
    }

    /// Adds an entry at the back of a lane; says whether the lane was empty before.
    pub fn append(&mut self, lane: usize, entry: QueueEntry<T>) -> (was_empty: bool)
        requires
            lane < LANES,
        ensures
            was_empty == (old(self)@.lanes[lane as int].queue.len() == 0),
            final(self)@ == (TenantView {
                lanes: old(self)@.lanes.update(
                    lane as int,
                    LaneView {
                        queue: old(self)@.lanes[lane as int].queue.push(entry),
                        active: true,
                        ..old(self)@.lanes[lane as int]
                    },
                ),
                ..old(self)@
            }),
    {
        let was_empty = self.lanes[lane].queue.len() == 0;
        self.lanes[lane].queue.push_back(entry);
        self.lanes[lane].active = true;
        assert(self@.lanes =~= old(self)@.lanes.update(
            lane as int,
            LaneView {
                queue: old(self)@.lanes[lane as int].queue.push(entry),
                active: true,
                ..old(self)@.lanes[lane as int]
            },
        ));
        was_empty
    }
}

/// Putting a lane and a ring in place keeps a shard sound.
proof fn lemma_settled<T>(
    shard: ShardView<T>,
    t: u64,
    l: int,
    tenant: TenantView<T>,
    lane: LaneView<T>,
    ring: Seq<u64>,
)
    requires
        shard.sound(),
        shard.tenants.contains_key(t),
        0 <= l < LANES,
        tenant.lanes =~= shard.tenants[t].lanes.update(l, lane),
        tenant.quantum == shard.tenants[t].quantum,
        tenant.since_purge == shard.tenants[t].since_purge,
        0 <= lane.deficit <= i64::MAX,
        forall|p: int| 0 <= p < ring.len() ==> shard.tenants.contains_key(#[trigger] ring[p]),
    ensures
        shard.settled(t, l, lane, ring).sound(),
        shard.settled(t, l, lane, ring).tenants == shard.tenants.insert(t, tenant),
{
    let after = shard.settled(t, l, lane, ring);
    assert(after.tenants[t] =~= tenant);
    assert forall|k: int, p: int| 0 <= k < LANES && 0 <= p < after.rings[k].len() implies after
        .tenants.contains_key(#[trigger] after.rings[k][p]) by {
        if k != l {
            assert(shard.tenants.contains_key(shard.rings[k][p]));
        }
    }
    assert forall|u: u64, k: int| after.tenants.contains_key(u) && 0 <= k < LANES implies 0 <= (
    #[trigger] after.tenants[u].lanes[k]).deficit <= i64::MAX by {
        assert(0 <= shard.tenants[u].lanes[k].deficit <= i64::MAX);
    }
}

/// A part of the tenants, and the rings in which they wait for their turns.
#[derive(Debug)]
pub struct Shard<T> {
    tenants: HashMap<u64, TenantState<T>>,
    active_rings: [ActiveRing<u64>; 3],
}

impl<T> View for Shard<T> {
    type V = ShardView<T>;

    closed spec fn view(&self) -> ShardView<T> {
        ShardView {
            tenants: self.tenants@.map_values(|t: TenantState<T>| t@),
            rings: Seq::new(LANES as nat, |l: int| self.active_rings@[l]@),
        }
    }
}

impl<T> Shard<T> {
    /// The rings are well formed.
    pub closed spec fn wf(&self) -> bool {
        forall|l: int| 0 <= l < LANES ==> (#[trigger] self.active_rings@[l]).wf()
    }

    /// A shard without tenants.
    pub fn new() -> (s: Shard<T>)
        ensures
            s.wf(),
            s@ == ShardView::<T>::empty(),
    {
        let s = Shard {
            tenants: HashMap::new(),
            active_rings: [ActiveRing::new(), ActiveRing::new(), ActiveRing::new()],
        };
        assert(s@.tenants =~= ShardView::<T>::empty().tenants);
        assert(s@.rings =~= ShardView::<T>::empty().rings);
        s
    }

    /// Whether some tenant waits for its turn.
    pub fn has_work(&self) -> (b: bool)
        requires
            self.wf(),
        ensures
            b == self@.has_work(),
    {
        !self.active_rings[0].is_empty() || !self.active_rings[1].is_empty()
            || !self.active_rings[2].is_empty()
    }

    /// The tenant's state, if the tenant was seen before.
    pub fn tenant(&self, tenant: u64) -> (state: Option<&TenantState<T>>)
        ensures
            match state {
                Some(s) => self@.tenants.contains_key(tenant) && s@ == self@.tenants[tenant],
                None => !self@.tenants.contains_key(tenant),
            },
    {
        self.tenants.get(&tenant)
    }

    /// The tenants seen so far, in no particular order.
    pub fn tenant_keys(&self) -> (keys: Vec<u64>)
        ensures
            forall|t: u64| keys@.contains(t) <==> #[trigger] self@.tenants.contains_key(t),
    {
        let mut keys: Vec<u64> = Vec::new();
        for tenant in it: self.tenants.keys()
            invariant
                keys@ == it.seq().unref().take(it.index() as int),
        {
            keys.push(*tenant);
        }
        proof {
            let all = vstd::std_specs::iter::IteratorSpec::remaining(
                &vstd::std_specs::hash::spec_keys_iter(&self.tenants),
            ).unref();
            assert(keys@ =~= all);
            assert forall|t: u64| keys@.contains(t) <==> #[trigger] self@.tenants.contains_key(t) by {
                assert(all.to_set().contains(t) <==> all.contains(t));
            }
        }
        keys
    }

    /// Takes the tenant's state out, to be put back by `put_tenant`.
    pub fn take_tenant(&mut self, tenant: u64) -> (state: Option<TenantState<T>>)
        requires
            old(self).wf(),
        ensures
            final(self).wf(),
            final(self)@ == (ShardView {
                tenants: old(self)@.tenants.remove(tenant),
                ..old(self)@
            }),
            final(self)@.rings.len() == LANES,
            match state {
                Some(s) => old(self)@.tenants.contains_key(tenant) && s@
                    == old(self)@.tenants[tenant],
                None => !old(self)@.tenants.contains_key(tenant),
            },
    {
        let state = self.tenants.remove(&tenant);
        assert(self@.tenants =~= old(self)@.tenants.remove(tenant));
        assert(self@.rings =~= old(self)@.rings);
        state
    }

    /// Stores the tenant's state.
    pub fn put_tenant(&mut self, tenant: u64, state: TenantState<T>)
        requires
            old(self).wf(),
        ensures
            final(self).wf(),
            final(self)@ == old(self)@.with_tenant(tenant, state@),
    {
        self.tenants.insert(tenant, state);
        assert(self@.tenants =~= old(self)@.tenants.insert(tenant, state@));
        assert(self@.rings =~= old(self)@.rings);
    }

    /// Puts the tenant at the back of the ring of a priority.
    pub fn join_ring(&mut self, lane: usize, tenant: u64)
        requires
            old(self).wf(),
            lane < LANES,
        ensures
            final(self).wf(),
            final(self)@ == (ShardView {
                rings: old(self)@.rings.update(lane as int, old(self)@.rings[lane as int].push(tenant)),
                ..old(self)@
            }),
    {
        self.active_rings[lane].push_back(tenant);
        assert(self@.tenants =~= old(self)@.tenants);
        assert(self@.rings =~= old(self)@.rings.update(
            lane as int,
            old(self)@.rings[lane as int].push(tenant),
        ));
    }

    /// Takes the tenant in front of the ring of a priority, if there is one.
    fn leave_ring(&mut self, lane: usize) -> (tenant: Option<u64>)
        requires
            old(self).wf(),
            lane < LANES,
        ensures
            final(self).wf(),
            match tenant {
                Some(t) => old(self)@.rings[lane as int].len() > 0 && t
                    == old(self)@.rings[lane as int][0] && final(self)@ == (ShardView {
                    rings: old(self)@.rings.update(
                        lane as int,
                        old(self)@.rings[lane as int].drop_first(),
                    ),
                    ..old(self)@
                }),
                None => old(self)@.rings[lane as int].len() == 0 && final(self)@ == old(self)@,
            },
    {
        let tenant = self.active_rings[lane].pop_front();
        proof {
            assert(self@.tenants =~= old(self)@.tenants);
            if tenant is Some {
                assert(self@.rings =~= old(self)@.rings.update(
                    lane as int,
                    old(self)@.rings[lane as int].drop_first(),
                ));
            } else {
                assert(self@.rings =~= old(self)@.rings);
            }
        }
        tenant
    }

    /// One turn of the tenant in front of the ring of a priority.
    fn turn(&mut self, books: &mut Books<T>, lane: usize, now: Instant) -> (found: Option<
        (u64, QueueEntry<T>),
    >)
        requires
            old(self).wf(),
            old(self)@.sound(),
            old(books)@.top.inv(),
            lane < LANES,
            old(self)@.rings[lane as int].len() > 0,
        ensures
            final(self).wf(),
            final(self)@.sound(),
            final(books)@.top.inv(),
            (final(self)@, final(books)@, found) == old(self)@.turn(
                old(books)@,
                lane as int,
                now,
            ),
    {
        let ghost before = self@;
        let ghost l = lane as int;
        let tenant: u64 = self.leave_ring(lane).unwrap();
        let mut state = self.take_tenant(tenant).unwrap();
        assert(state@ == before.tenants[tenant]);
        assert(before.tenants[tenant].lanes[l].deficit >= 0);
        strip_front(&mut state.lanes[lane].queue, books, now);
        let ghost queue = state.lanes@[l].queue@;
        let ghost lane_before = before.tenants[tenant].lanes[l];
        let ghost ring = before.rings[l].drop_first();
        if state.lanes[lane].queue.len() == 0 {
            state.lanes[lane].active = false;
            proof {
                lemma_settled(before, tenant, l, state@, LaneView {
                    queue,
                    active: false,
                    ..lane_before
                }, ring);
            }
            self.put_tenant(tenant, state);
            proof {
                assert(self@ =~= before.turn(old(books)@, l, now).0);
            }
            return None;
        }
        let front_cost: u64 = state.lanes[lane].queue[0].task.cost;
        let cost: i64 = if front_cost > i64::MAX as u64 {
            i64::MAX
        } else {
            front_cost as i64
        };
        if state.lanes[lane].deficit < cost {
            let grown: i64 = match state.lanes[lane].deficit.checked_add(state.quantum) {
                Some(sum) => sum,
                None => i64::MAX,
            };
            state.lanes[lane].deficit = grown;
            proof {
                lemma_settled(before, tenant, l, state@, LaneView {
                    queue,
                    deficit: grown as int,
                    ..lane_before
                }, ring.push(tenant));
            }
            self.put_tenant(tenant, state);
            self.join_ring(lane, tenant);
            proof {
                assert(self@ =~= before.turn(old(books)@, l, now).0);
            }
            return None;
        }
        let entry = state.lanes[lane].queue.pop_front().unwrap();
        assert(state.lanes@[l].queue@ =~= queue.drop_first());
        state.lanes[lane].deficit = state.lanes[lane].deficit - cost;
        let more = state.lanes[lane].queue.len() > 0;
        if !more {
            state.lanes[lane].active = false;
        }
        proof {
            lemma_settled(before, tenant, l, state@, LaneView {
                queue: queue.drop_first(),
                deficit: lane_before.deficit - cost,
                active: lane_before.active && more,
            }, if more { ring.push(tenant) } else { ring });
        }
        self.put_tenant(tenant, state);
        if more {
            self.join_ring(lane, tenant);
        }
        books.deliver(tenant, &entry, now);
        proof {
            assert(self@ =~= before.turn(old(books)@, l, now).0);
        }
        Some((tenant, entry))
    }

    /// One turn for each tenant, most urgent priority first, until a turn hands out
    /// a task.
    pub fn try_dequeue(&mut self, books: &mut Books<T>, now: Instant) -> (found: Option<
        (u64, QueueEntry<T>),
    >)
        requires
            old(self).wf(),
            old(self)@.sound(),
            old(books)@.top.inv(),
        ensures
            final(self).wf(),
            final(self)@.sound(),
            final(books)@.top.inv(),
            (final(self)@, final(books)@, found) == old(self)@.dequeue_from(
                old(books)@,
                0,
                now,
            ),
    {
        let order = Priority::ordered();
        for i in 0..LANES
            invariant
                order@.len() == 3,
                forall|j: int| 0 <= j < 3 ==> (#[trigger] order@[j]).rank() == j,
                self.wf(),
                self@.sound(),
                books@.top.inv(),
                self@.dequeue_from(books@, i as int, now) == old(self)@.dequeue_from(
                    old(books)@,
                    0,
                    now,
                ),
        {
            let lane: usize = order[i].index();
            let mut turns: usize = self.active_rings[lane].len();
            let ghost start = self@;
            let ghost start_books = books@;
            while turns > 0 && !self.active_rings[lane].is_empty()
                invariant
                    lane == i,
                    i < LANES,
                    self.wf(),
                    self@.sound(),
                    books@.top.inv(),
                    self@.pass(books@, i as int, turns as nat, now) == start.pass(
                        start_books,
                        i as int,
                        start.rings[i as int].len(),
                        now,
                    ),
                    start.dequeue_from(start_books, i as int, now) == old(self)@.dequeue_from(
                        old(books)@,
                        0,
                        now,
                    ),
                decreases turns,
            {
                let found = self.turn(books, lane, now);
                turns -= 1;
                if found.is_some() {
                    return found;
                }
            }
        }
        None
    }
}

} // verus!
