//! Proofs that every operation keeps what is true of the scheduler at all times.
use vstd::prelude::*;

use crate::api::{CloseMode, EnqueueRejectReason, QuantumProvider, Task, TenantKey};
use crate::model;
use crate::model::{
    BooksView, DropStrategy, EnqueueAttempt, Limits, QueueEntry, ShardView, StateView, TenantView,
    TopView, LANES, PURGE_INTERVAL,
};
use crate::time::Instant;

verus! {

/// The lane's queue is in order, and every number that is said to be in the lane
/// is in it.
pub open spec fn lane_ok<T>(
    queue: Seq<QueueEntry<T>>,
    t: u64,
    l: int,
    home: Map<u64, (u64, int)>,
) -> bool {
    &&& model::queue_inv(queue, t, l, home)
    &&& forall|id: u64| #[trigger]
        home.contains_key(id) && home[id] == (t, l) ==> exists|p: int|
            0 <= p < queue.len() && (#[trigger] queue[p]).id == id
}

/// Two homes agree but for numbers in one lane.
pub open spec fn same_outside_lane(
    home: Map<u64, (u64, int)>,
    after: Map<u64, (u64, int)>,
    t: u64,
    l: int,
) -> bool {
    &&& forall|id: u64| #[trigger]
        home.contains_key(id) && home[id] != (t, l) ==> after.contains_key(id) && after[id]
            == home[id]
    &&& forall|id: u64| #[trigger]
        after.contains_key(id) && after[id] != (t, l) ==> home.contains_key(id) && after[id]
            == home[id]
}

/// Two homes agree but for numbers of one tenant.
pub open spec fn same_outside_tenant(
    home: Map<u64, (u64, int)>,
    after: Map<u64, (u64, int)>,
    t: u64,
) -> bool {
    &&& forall|id: u64| #[trigger]
        home.contains_key(id) && home[id].0 != t ==> after.contains_key(id) && after[id] == home[id]
    &&& forall|id: u64| #[trigger]
        after.contains_key(id) && after[id].0 != t ==> home.contains_key(id) && after[id]
            == home[id]
}

/// Two homes agree but for numbers in one shard.
pub open spec fn same_outside_shard(
    home: Map<u64, (u64, int)>,
    after: Map<u64, (u64, int)>,
    i: int,
    n: nat,
) -> bool {
    &&& forall|id: u64| #[trigger]
        home.contains_key(id) && model::shard_of(home[id].0, n) != i ==> after.contains_key(id)
            && after[id] == home[id]
    &&& forall|id: u64| #[trigger]
        after.contains_key(id) && model::shard_of(after[id].0, n) != i ==> home.contains_key(id)
            && after[id] == home[id]
}

/// The table of top talkers stays within its bounds.
pub proof fn lemma_top_record(top: TopView, tenant: TenantKey, delta: u64)
    requires
        top.inv(),
    ensures
        top.record(tenant, delta).inv(),
{
    let after = top.record(tenant, delta);
    if top.capacity > 0 && !top.tracks(tenant) && top.entries.len() >= top.capacity {
        lemma_lowest_exists(top, top.entries.len());
    }
    assert forall|i: int, j: int| 0 <= i < j < after.entries.len() implies (
    #[trigger] after.entries[i]).tenant != (#[trigger] after.entries[j]).tenant by {
        if i < top.entries.len() {
            let _ = top.entries[i];
        }
        if j < top.entries.len() {
            let _ = top.entries[j];
        }
        if top.tracks(tenant) {
            let k = top.slot_of(tenant);
            assert(top.entries[k].tenant == tenant);
        }
    }
}

/// Among the first `n` entries one is the lowest.
proof fn lemma_lowest_exists(top: TopView, n: nat)
    requires
        0 < n <= top.entries.len(),
    ensures
        exists|i: int| #[trigger]
            (TopView { entries: top.entries.take(n as int), ..top }).is_lowest(i),
        n == top.entries.len() ==> exists|i: int| #[trigger] top.is_lowest(i),
    decreases n,
{
    let part = TopView { entries: top.entries.take(n as int), ..top };
    if n == 1 {
        assert(part.is_lowest(0));
    } else {
        lemma_lowest_exists(top, (n - 1) as nat);
        let shorter = TopView { entries: top.entries.take(n - 1), ..top };
        let i = choose|i: int| #[trigger] shorter.is_lowest(i);
        assert(forall|j: int| 0 <= j < n - 1 ==> shorter.entries[j] == #[trigger] part.entries[j]);
        if part.entries[n - 1].count < part.entries[i].count {
            assert(part.is_lowest(n - 1));
        } else {
            assert(part.is_lowest(i));
        }
    }
    if n == top.entries.len() {
        assert(part.entries =~= top.entries);
    }
}

/// Taking a number out of the books by `discard` keeps them in order.
pub proof fn lemma_discard<T>(b: BooksView<T>, entry: QueueEntry<T>)
    requires
        b.inv(),
        b.home.contains_key(entry.id),
    ensures
        b.discard(entry).inv(),
        b.discard(entry).home == b.home.remove(entry.id),
{
    let after = b.discard(entry);
    assert(b.pending.contains(entry.id) || b.cancelled.contains(entry.id));
    assert(after.home.dom() =~= after.pending.union(after.cancelled));
    if b.pending.contains(entry.id) {
        assert(b.pending.len() > 0);
    }
}

/// Handing out a live entry keeps the books in order.
pub proof fn lemma_deliver<T>(b: BooksView<T>, t: u64, entry: QueueEntry<T>, now: Instant)
    requires
        b.inv(),
        b.pending.contains(entry.id),
    ensures
        b.deliver(t, entry, now).inv(),
        b.deliver(t, entry, now).home == b.home.remove(entry.id),
{
    let after = b.deliver(t, entry, now);
    assert(after.home.dom() =~= after.pending.union(after.cancelled));
    assert(b.pending.len() > 0);
    lemma_top_record(b.top, TenantKey(t), 1);
}

/// An entry leaves a lane, and its number leaves the books.
pub proof fn lemma_lane_remove<T>(
    queue: Seq<QueueEntry<T>>,
    p: int,
    t: u64,
    l: int,
    home: Map<u64, (u64, int)>,
)
    requires
        lane_ok(queue, t, l, home),
        0 <= p < queue.len(),
    ensures
        lane_ok(queue.remove(p), t, l, home.remove(queue[p].id)),
        same_outside_lane(home, home.remove(queue[p].id), t, l),
        home.contains_key(queue[p].id),
{
    let id0 = queue[p].id;
    let after = queue.remove(p);
    let home2 = home.remove(id0);
    assert(home[id0] == (t, l));
    assert forall|i: int| 0 <= i < after.len() implies home2.contains_key((#[trigger] after[i]).id)
        && home2[after[i].id] == (t, l) && after[i].task.priority.rank() == l by {
        let j = if i < p {
            i
        } else {
            i + 1
        };
        assert(after[i] == queue[j]);
        if j < p {
            assert(queue[j].id < queue[p].id);
        } else {
            assert(queue[p].id < queue[j].id);
        }
    }
    assert forall|i: int, j: int| 0 <= i < j < after.len() implies (#[trigger] after[i]).id < (
    #[trigger] after[j]).id by {
        let i0 = if i < p {
            i
        } else {
            i + 1
        };
        let j0 = if j < p {
            j
        } else {
            j + 1
        };
        assert(queue[i0].id < queue[j0].id);
    }
    assert forall|id: u64| #[trigger]
        home2.contains_key(id) && home2[id] == (t, l) implies exists|q: int|
        0 <= q < after.len() && (#[trigger] after[q]).id == id by {
        assert(home.contains_key(id));
        let q = choose|q: int| 0 <= q < queue.len() && (#[trigger] queue[q]).id == id;
        if q < p {
            assert(after[q].id == id);
        } else {
            assert(after[q - 1].id == id);
        }
    }
}

/// Stripping the front of a lane keeps the books and the lane in order, and what
/// is in front then is good.
pub proof fn lemma_strip<T>(b: BooksView<T>, queue: Seq<QueueEntry<T>>, t: u64, l: int, now: Instant)
    requires
        b.inv(),
        lane_ok(queue, t, l, b.home),
    ensures
        ({
            let (b1, q1) = model::strip(b, queue, now);
            &&& b1.inv()
            &&& lane_ok(q1, t, l, b1.home)
            &&& same_outside_lane(b.home, b1.home, t, l)
            &&& q1.len() > 0 ==> !b1.stale(q1[0], now) && b1.pending.contains(q1[0].id)
            &&& q1.len() <= queue.len()
        }),
    decreases queue.len(),
{
    if queue.len() > 0 && b.stale(queue[0], now) {
        lemma_lane_remove(queue, 0, t, l, b.home);
        lemma_discard(b, queue[0]);
        assert(queue.remove(0) =~= queue.drop_first());
        lemma_strip(b.discard(queue[0]), queue.drop_first(), t, l, now);
    } else if queue.len() > 0 {
        assert(b.home.contains_key(queue[0].id));
        assert(b.pending.union(b.cancelled).contains(queue[0].id));
    }
}

/// Purging a lane, part by part: what is left of the purged part stands before the
/// rest, and all of it is good.
pub proof fn lemma_purge_part<T>(
    b: BooksView<T>,
    part: Seq<QueueEntry<T>>,
    rest: Seq<QueueEntry<T>>,
    t: u64,
    l: int,
    now: Instant,
)
    requires
        b.inv(),
        lane_ok(part + rest, t, l, b.home),
    ensures
        ({
            let (b1, kept) = model::purge(b, part, now);
            &&& b1.inv()
            &&& lane_ok(kept + rest, t, l, b1.home)
            &&& same_outside_lane(b.home, b1.home, t, l)
            &&& forall|p: int| 0 <= p < kept.len() ==> !b1.stale(#[trigger] kept[p], now)
            &&& kept.len() <= part.len()
            &&& b1.cancelled.subset_of(b.cancelled)
            &&& b1.pending.subset_of(b.pending)
            &&& b.wake ==> b1.wake
            &&& b1.pending != b.pending ==> b1.wake
            &&& b1.last_id == b.last_id
        }),
    decreases part.len(),
{
    if part.len() > 0 {
        let front = part.drop_last();
        let e = part.last();
        let rest1 = seq![e] + rest;
        assert(front + rest1 =~= part + rest);
        lemma_purge_part(b, front, rest1, t, l, now);
        let (b1, kept) = model::purge(b, front, now);
        if b1.stale(e, now) {
            let whole = kept + rest1;
            assert(whole[kept.len() as int] == e);
            lemma_lane_remove(whole, kept.len() as int, t, l, b1.home);
            lemma_discard(b1, e);
            assert(whole.remove(kept.len() as int) =~= kept + rest);
            let b2 = b1.discard(e);
            assert forall|p: int| 0 <= p < kept.len() implies !b2.stale(#[trigger] kept[p], now) by {
                assert(!b1.stale(kept[p], now));
            }
        } else {
            assert(kept.push(e) + rest =~= kept + rest1);
        }
    }
}

/// Purging a lane keeps the books and the lane in order and leaves good entries only.
pub proof fn lemma_purge<T>(b: BooksView<T>, queue: Seq<QueueEntry<T>>, t: u64, l: int, now: Instant)
    requires
        b.inv(),
        lane_ok(queue, t, l, b.home),
    ensures
        ({
            let (b1, kept) = model::purge(b, queue, now);
            &&& b1.inv()
            &&& lane_ok(kept, t, l, b1.home)
            &&& same_outside_lane(b.home, b1.home, t, l)
            &&& forall|p: int| 0 <= p < kept.len() ==> !b1.stale(#[trigger] kept[p], now)
            &&& kept.len() <= queue.len()
            &&& b1.cancelled.subset_of(b.cancelled)
            &&& b1.pending.subset_of(b.pending)
            &&& b.wake ==> b1.wake
            &&& b1.pending != b.pending ==> b1.wake
            &&& b1.last_id == b.last_id
        }),
{
    assert(queue + Seq::empty() =~= queue);
    lemma_purge_part(b, queue, Seq::empty(), t, l, now);
    let (b1, kept) = model::purge(b, queue, now);
    assert(kept + Seq::empty() =~= kept);
}

/// A tenant of a shard is replaced or added, and with it its places in the rings:
/// all is well if all is well with that tenant.
pub proof fn lemma_replace_tenant<T>(
    shard: ShardView<T>,
    after: ShardView<T>,
    t: u64,
    home: Map<u64, (u64, int)>,
    home2: Map<u64, (u64, int)>,
    i: int,
    n: nat,
)
    requires
        shard.inv(home, i, n),
        model::shard_of(t, n) == i,
        after.tenants == shard.tenants.insert(t, after.tenants[t]),
        after.tenants.contains_key(t),
        after.rings.len() == LANES,
        forall|l: int| 0 <= l < LANES ==> (#[trigger] after.rings[l]).no_duplicates(),
        forall|l: int, u: u64|
            0 <= l < LANES && u != t ==> (#[trigger] after.rings[l].contains(u)
                <==> shard.rings[l].contains(u)),
        forall|l: int|
            0 <= l < LANES ==> (after.rings[l].contains(t)
                <==> (#[trigger] after.tenants[t].lanes[l]).active),
        after.tenants[t].lanes.len() == LANES,
        1 <= after.tenants[t].quantum <= i64::MAX,
        0 <= after.tenants[t].since_purge < PURGE_INTERVAL,
        forall|l: int|
            0 <= l < LANES ==> 0 <= (#[trigger] after.tenants[t].lanes[l]).deficit <= i64::MAX && (
            after.tenants[t].lanes[l].queue.len() > 0 ==> after.tenants[t].lanes[l].active)
                && lane_ok(after.tenants[t].lanes[l].queue, t, l, home2),
        same_outside_tenant(home, home2, t),
        forall|id: u64| #[trigger]
            home2.contains_key(id) && home2[id].0 == t ==> 0 <= home2[id].1 < LANES,
    ensures
        after.inv(home2, i, n),
{
    assert forall|u: u64| #[trigger] after.tenants.contains_key(u) implies model::shard_of(u, n)
        == i && after.tenant_inv(u, home2) by {
        if u != t {
            assert(shard.tenants.contains_key(u));
            assert forall|l: int| 0 <= l < LANES implies #[trigger] after.lane_inv(u, l, home2) by {
                assert(shard.lane_inv(u, l, home));
                let queue = shard.tenants[u].lanes[l].queue;
                assert forall|p: int| 0 <= p < queue.len() implies home2.contains_key(
                    (#[trigger] queue[p]).id,
                ) && home2[queue[p].id] == (u, l) && queue[p].task.priority.rank() == l by {
                    assert(home.contains_key(queue[p].id));
                }
                assert(after.rings[l].contains(u) <==> shard.rings[l].contains(u));
            }
        } else {
            assert forall|l: int| 0 <= l < LANES implies #[trigger] after.lane_inv(t, l, home2) by {
                assert(lane_ok(after.tenants[t].lanes[l].queue, t, l, home2));
            }
        }
    }
    assert forall|l: int, p: int| 0 <= l < LANES && 0 <= p < after.rings[l].len() implies after
        .tenants.contains_key(#[trigger] after.rings[l][p]) by {
        let u = after.rings[l][p];
        assert(after.rings[l].contains(u));
        if u != t {
            assert(shard.rings[l].contains(u));
            let q = choose|q: int| 0 <= q < shard.rings[l].len() && shard.rings[l][q] == u;
            assert(shard.tenants.contains_key(shard.rings[l][q]));
        }
    }
    assert forall|id: u64| #[trigger]
        home2.contains_key(id) && model::shard_of(home2[id].0, n) == i implies after.holds(
        home2[id].0,
        home2[id].1,
        id,
    ) by {
        let (u, l) = home2[id];
        if u != t {
            assert(home.contains_key(id));
            assert(shard.holds(u, l, id));
            let p = choose|p: int|
                0 <= p < shard.tenants[u].lanes[l].queue.len() && (
                #[trigger] shard.tenants[u].lanes[l].queue[p]).id == id;
            assert(after.tenants[u].lanes[l].queue[p].id == id);
        } else {
            assert(lane_ok(after.tenants[t].lanes[l].queue, t, l, home2));
            let p = choose|p: int|
                0 <= p < after.tenants[t].lanes[l].queue.len() && (
                #[trigger] after.tenants[t].lanes[l].queue[p]).id == id;
            assert(after.tenants[t].lanes[l].queue[p].id == id);
        }
    }
}

/// What happens in one shard does not concern another.
pub proof fn lemma_other_shard<T>(
    shard: ShardView<T>,
    home: Map<u64, (u64, int)>,
    home2: Map<u64, (u64, int)>,
    i: int,
    j: int,
    n: nat,
)
    requires
        shard.inv(home, j, n),
        i != j,
        same_outside_shard(home, home2, i, n),
    ensures
        shard.inv(home2, j, n),
{
    assert forall|u: u64| #[trigger] shard.tenants.contains_key(u) implies shard.tenant_inv(
        u,
        home2,
    ) by {
        assert forall|l: int| 0 <= l < LANES implies #[trigger] shard.lane_inv(u, l, home2) by {
            assert(shard.lane_inv(u, l, home));
            let queue = shard.tenants[u].lanes[l].queue;
            assert forall|p: int| 0 <= p < queue.len() implies home2.contains_key(
                (#[trigger] queue[p]).id,
            ) && home2[queue[p].id] == (u, l) && queue[p].task.priority.rank() == l by {
                assert(home.contains_key(queue[p].id));
            }
        }
    }
    assert forall|id: u64| #[trigger]
        home2.contains_key(id) && model::shard_of(home2[id].0, n) == j implies shard.holds(
        home2[id].0,
        home2[id].1,
        id,
    ) by {
        assert(home.contains_key(id));
        assert(shard.holds(home[id].0, home[id].1, id));
    }
}

/// What is true of a lane of a shard in order.
pub proof fn lemma_lane_of_shard<T>(
    shard: ShardView<T>,
    home: Map<u64, (u64, int)>,
    i: int,
    n: nat,
    t: u64,
    l: int,
)
    requires
        shard.inv(home, i, n),
        shard.tenants.contains_key(t),
        0 <= l < LANES,
    ensures
        lane_ok(shard.tenants[t].lanes[l].queue, t, l, home),
        shard.lane_inv(t, l, home),
        model::shard_of(t, n) == i,
{
    assert(shard.tenant_inv(t, home));
    assert(shard.lane_inv(t, l, home));
    let queue = shard.tenants[t].lanes[l].queue;
    assert forall|id: u64| #[trigger]
        home.contains_key(id) && home[id] == (t, l) implies exists|p: int|
        0 <= p < queue.len() && (#[trigger] queue[p]).id == id by {
        assert(shard.holds(t, l, id));
    }
}

/// A shard in order is fit for turns.
pub proof fn lemma_sound<T>(shard: ShardView<T>, home: Map<u64, (u64, int)>, i: int, n: nat)
    requires
        shard.inv(home, i, n),
    ensures
        shard.sound(),
{
    assert forall|t: u64, l: int| shard.tenants.contains_key(t) && 0 <= l < LANES implies 0 <= (
    #[trigger] shard.tenants[t].lanes[l]).deficit <= i64::MAX by {
        assert(shard.tenant_inv(t, home));
        assert(shard.lane_inv(t, l, home));
    }
    assert forall|t: u64| #[trigger] shard.tenants.contains_key(t) implies shard.tenants[t].lanes.len()
        == LANES && 1 <= shard.tenants[t].quantum <= i64::MAX && shard.tenants[t].since_purge
        < PURGE_INTERVAL by {
        assert(shard.tenant_inv(t, home));
    }
}

/// A ring after its front was taken, and after that was put at the back again.
proof fn lemma_rotate<A>(ring: Seq<A>)
    requires
        ring.no_duplicates(),
        ring.len() > 0,
    ensures
        ring.drop_first().no_duplicates(),
        !ring.drop_first().contains(ring[0]),
        ring.drop_first().push(ring[0]).no_duplicates(),
        ring.drop_first().push(ring[0]).contains(ring[0]),
        forall|u: A|
            u != ring[0] ==> (#[trigger] ring.drop_first().contains(u) <==> ring.contains(u)),
        forall|u: A|
            u != ring[0] ==> (#[trigger] ring.drop_first().push(ring[0]).contains(u)
                <==> ring.contains(u)),
{
    let t = ring[0];
    let rest = ring.drop_first();
    assert forall|u: A| u != t implies (#[trigger] rest.contains(u) <==> ring.contains(u)) by {
        if rest.contains(u) {
            let p = choose|p: int| 0 <= p < rest.len() && rest[p] == u;
            assert(ring[p + 1] == u);
        }
        if ring.contains(u) {
            let p = choose|p: int| 0 <= p < ring.len() && ring[p] == u;
            assert(rest[p - 1] == u);
        }
    }
    let again = rest.push(t);
    assert(again[rest.len() as int] == t);
    assert forall|u: A| u != t implies (#[trigger] again.contains(u) <==> ring.contains(u)) by {
        if again.contains(u) {
            let p = choose|p: int| 0 <= p < again.len() && again[p] == u;
            assert(rest[p] == u);
            assert(rest.contains(u));
        }
        if ring.contains(u) {
            assert(rest.contains(u));
            let p = choose|p: int| 0 <= p < rest.len() && rest[p] == u;
            assert(again[p] == u);
        }
    }
}

/// A turn keeps the shard and the books in order, and what it hands out was live.
pub proof fn lemma_turn<T>(
    shard: ShardView<T>,
    b: BooksView<T>,
    l: int,
    now: Instant,
    i: int,
    n: nat,
)
    requires
        shard.inv(b.home, i, n),
        b.inv(),
        0 <= l < LANES,
        shard.rings[l].len() > 0,
    ensures
        ({
            let (shard1, b1, found) = shard.turn(b, l, now);
            &&& shard1.inv(b1.home, i, n)
            &&& b1.inv()
            &&& same_outside_shard(b.home, b1.home, i, n)
        }),
{
    let t = shard.rings[l][0];
    let ring = shard.rings[l];
    let rest = ring.drop_first();
    assert(shard.tenants.contains_key(t));
    lemma_lane_of_shard(shard, b.home, i, n, t, l);
    let tenant = shard.tenants[t];
    let lane = tenant.lanes[l];
    lemma_strip(b, lane.queue, t, l, now);
    lemma_rotate(ring);
    let (b1, queue) = model::strip(b, lane.queue, now);
    let (shard1, b2, found) = shard.turn(b, l, now);
    if queue.len() > 0 && lane.deficit >= model::budget(queue[0].task.cost as int) {
        lemma_lane_remove(queue, 0, t, l, b1.home);
        assert(queue.remove(0) =~= queue.drop_first());
        lemma_deliver(b1, t, queue[0], now);
    }
    let lane1 = shard1.tenants[t].lanes[l];
    assert(lane_ok(lane1.queue, t, l, b2.home));
    assert(same_outside_lane(b.home, b2.home, t, l));
    assert forall|k: int| 0 <= k < LANES implies 0 <= (
    #[trigger] shard1.tenants[t].lanes[k]).deficit <= i64::MAX && (
    shard1.tenants[t].lanes[k].queue.len() > 0 ==> shard1.tenants[t].lanes[k].active) && lane_ok(
        shard1.tenants[t].lanes[k].queue,
        t,
        k,
        b2.home,
    ) by {
        lemma_lane_of_shard(shard, b.home, i, n, t, k);
        if k != l {
            lemma_lane_untouched(tenant.lanes[k].queue, t, l, k, b.home, b2.home);
        }
    }
    assert forall|k: int| 0 <= k < LANES implies (shard1.rings[k].contains(t)
        <==> (#[trigger] shard1.tenants[t].lanes[k]).active) by {
        lemma_lane_of_shard(shard, b.home, i, n, t, k);
    }
    assert forall|id: u64| #[trigger] b2.home.contains_key(id) && b2.home[id].0 == t implies 0
        <= b2.home[id].1 < LANES by {
        if b2.home[id] != (t, l) {
            assert(b.home.contains_key(id));
            assert(shard.holds(b.home[id].0, b.home[id].1, id));
        }
    }
    assert(shard.tenant_inv(t, b.home));
    lemma_replace_tenant(shard, shard1, t, b.home, b2.home, i, n);
}

/// A change in one lane does not concern another lane of the tenant.
pub proof fn lemma_lane_untouched<T>(
    queue: Seq<QueueEntry<T>>,
    t: u64,
    l: int,
    k: int,
    home: Map<u64, (u64, int)>,
    home2: Map<u64, (u64, int)>,
)
    requires
        lane_ok(queue, t, k, home),
        same_outside_lane(home, home2, t, l),
        k != l,
    ensures
        lane_ok(queue, t, k, home2),
{
    assert forall|p: int| 0 <= p < queue.len() implies home2.contains_key((#[trigger] queue[p]).id)
        && home2[queue[p].id] == (t, k) && queue[p].task.priority.rank() == k by {
        assert(home.contains_key(queue[p].id));
    }
    assert forall|id: u64| #[trigger] home2.contains_key(id) && home2[id] == (t, k) implies exists|
        p: int,
    | 0 <= p < queue.len() && (#[trigger] queue[p]).id == id by {
        assert(home.contains_key(id));
    }
}

/// A pass through a ring keeps the shard and the books in order.
pub proof fn lemma_pass<T>(
    shard: ShardView<T>,
    b: BooksView<T>,
    l: int,
    turns: nat,
    now: Instant,
    i: int,
    n: nat,
)
    requires
        shard.inv(b.home, i, n),
        b.inv(),
        0 <= l < LANES,
    ensures
        ({
            let (shard1, b1, found) = shard.pass(b, l, turns, now);
            &&& shard1.inv(b1.home, i, n)
            &&& b1.inv()
            &&& same_outside_shard(b.home, b1.home, i, n)
        }),
    decreases turns,
{
    if turns > 0 && shard.rings[l].len() > 0 {
        lemma_turn(shard, b, l, now, i, n);
        let (shard1, b1, found) = shard.turn(b, l, now);
        if found is None {
            lemma_pass(shard1, b1, l, (turns - 1) as nat, now, i, n);
        }
    }
}

/// A dequeue from a shard keeps the shard and the books in order.
pub proof fn lemma_dequeue_from<T>(
    shard: ShardView<T>,
    b: BooksView<T>,
    l: int,
    now: Instant,
    i: int,
    n: nat,
)
    requires
        shard.inv(b.home, i, n),
        b.inv(),
        0 <= l <= LANES,
    ensures
        ({
            let (shard1, b1, found) = shard.dequeue_from(b, l, now);
            &&& shard1.inv(b1.home, i, n)
            &&& b1.inv()
            &&& same_outside_shard(b.home, b1.home, i, n)
        }),
    decreases LANES - l,
{
    if l < LANES {
        lemma_pass(shard, b, l, shard.rings[l].len(), now, i, n);
        let (shard1, b1, found) = shard.pass(b, l, shard.rings[l].len(), now);
        if found is None {
            lemma_dequeue_from(shard1, b1, l + 1, now, i, n);
        }
    }
}

/// A new shard and new books in place of the old ones: the other shards are
/// still in order.
pub proof fn lemma_with_shard<T>(
    s: StateView<T>,
    i: int,
    shard: ShardView<T>,
    books: BooksView<T>,
)
    requires
        s.inv(),
        0 <= i < s.shards.len(),
        shard.inv(books.home, i, s.shards.len()),
        same_outside_shard(s.books.home, books.home, i, s.shards.len()),
    ensures
        forall|j: int|
            0 <= j < s.shards.len() ==> (#[trigger] s.with_shard(i, shard, books).shards[j]).inv(
                books.home,
                j,
                s.shards.len(),
            ),
{
    let after = s.with_shard(i, shard, books);
    assert forall|j: int| 0 <= j < s.shards.len() implies (#[trigger] after.shards[j]).inv(
        books.home,
        j,
        s.shards.len(),
    ) by {
        if j != i {
            lemma_other_shard(s.shards[j], s.books.home, books.home, i, j, s.shards.len());
        }
    }
}

/// A shard's turn keeps the scheduler in order.
pub proof fn lemma_shard_turn<T>(s: StateView<T>, now: Instant)
    requires
        s.inv(),
        s.ready.len() > 0,
    ensures
        s.shard_turn(now).0.inv(),
        s.shard_turn(now).0.shards.len() == s.shards.len(),
{
    let i = s.ready[0] as int;
    let n = s.shards.len();
    assert(s.ready[0] < n);
    let (shard, books, found) = s.shards[i].dequeue_from(s.books, 0, now);
    lemma_dequeue_from(s.shards[i], s.books, 0, now, i, n);
    lemma_with_shard(s, i, shard, books);
    let after = s.shard_turn(now).0;
    let rest = s.ready.drop_first();
    lemma_rotate(s.ready);
    assert forall|p: int| 0 <= p < after.ready.len() implies (#[trigger] after.ready[p]) < n by {
        assert(after.ready.contains(after.ready[p]));
        let u = after.ready[p];
        assert(s.ready.contains(u));
        let q = choose|q: int| 0 <= q < s.ready.len() && s.ready[q] == u;
        assert(s.ready[q] < n);
    }
    assert forall|j: int| 0 <= j < n implies (#[trigger] after.shard_active[j]
        <==> after.ready.contains(j as usize)) by {
        assert(s.shard_active[j] <==> s.ready.contains(j as usize));
        if j == i {
            assert(s.ready.contains(i as usize));
        }
    }
    assert forall|j: int| 0 <= j < n implies (!(#[trigger] after.shards[j]).has_work()
        || after.shard_active[j]) by {
        if j != i {
            assert(s.shards[j].has_work() ==> s.shard_active[j]);
        } else {
            assert(s.ready.contains(s.ready[0]));
            assert(s.shard_active[i] <==> s.ready.contains(i as usize));
        }
    }
}

/// A sweep keeps the scheduler in order.
pub proof fn lemma_sweep<T>(s: StateView<T>, turns: nat, now: Instant)
    requires
        s.inv(),
    ensures
        s.sweep(turns, now).0.inv(),
    decreases turns,
{
    if turns > 0 && s.ready.len() > 0 {
        lemma_shard_turn(s, now);
        let (s1, found) = s.shard_turn(now);
        if found is None {
            lemma_sweep(s1, (turns - 1) as nat, now);
        }
    }
}

/// A dequeue keeps the scheduler in order.
pub proof fn lemma_dequeue<T>(s: StateView<T>, now: Instant)
    requires
        s.inv(),
    ensures
        s.dequeue(now).0.inv(),
{
    lemma_sweep(s, s.ready.len(), now);
}

/// All lanes of the tenant are in order.
pub open spec fn lanes_ok<T>(tenant: TenantView<T>, t: u64, home: Map<u64, (u64, int)>) -> bool {
    &&& tenant.lanes.len() == LANES
    &&& forall|l: int| 0 <= l < LANES ==> lane_ok((#[trigger] tenant.lanes[l]).queue, t, l, home)
}

/// Two states of a tenant differ in their queues alone.
pub open spec fn same_but_queues<T>(a: TenantView<T>, b: TenantView<T>) -> bool {
    &&& a.lanes.len() == b.lanes.len()
    &&& a.quantum == b.quantum
    &&& forall|l: int|
        #![trigger a.lanes[l]]
        #![trigger b.lanes[l]]
        0 <= l < a.lanes.len() ==> a.lanes[l].deficit == b.lanes[l].deficit && a.lanes[l].active
            == b.lanes[l].active && b.lanes[l].queue.len() <= a.lanes[l].queue.len()
}

/// Purging lanes of a tenant keeps the books and the lanes in order and leaves
/// good entries only.
pub proof fn lemma_purged<T>(tenant: TenantView<T>, b: BooksView<T>, t: u64, n: nat, now: Instant)
    requires
        b.inv(),
        lanes_ok(tenant, t, b.home),
        n <= LANES,
    ensures
        ({
            let (b1, tenant1) = tenant.purged(b, n, now);
            &&& b1.inv()
            &&& lanes_ok(tenant1, t, b1.home)
            &&& same_outside_tenant(b.home, b1.home, t)
            &&& same_but_queues(tenant, tenant1)
            &&& tenant1.since_purge == tenant.since_purge
            &&& b1.last_id == b.last_id
            &&& b1.cancelled.subset_of(b.cancelled)
            &&& b1.pending.subset_of(b.pending)
            &&& b.wake ==> b1.wake
            &&& b1.pending != b.pending ==> b1.wake
            &&& forall|l: int, p: int|
                0 <= l < n && 0 <= p < tenant1.lanes[l].queue.len() ==> !b1.stale(
                    #[trigger] tenant1.lanes[l].queue[p],
                    now,
                )
            &&& forall|id: u64| #[trigger]
                b1.home.contains_key(id) && b1.home[id].0 == t ==> b.home.contains_key(id)
                    && b.home[id] == b1.home[id]
        }),
    decreases n,
{
    if n > 0 {
        lemma_purged(tenant, b, t, (n - 1) as nat, now);
        let (b1, tenant1) = tenant.purged(b, (n - 1) as nat, now);
        let l = n - 1;
        let queue = tenant1.lanes[l].queue;
        assert(lane_ok(queue, t, l, b1.home));
        lemma_purge(b1, queue, t, l, now);
        lemma_purge_home(b1, queue, now);
        let (b2, kept) = model::purge(b1, queue, now);
        let tenant2 = tenant1.with_queue(l, kept);
        assert forall|k: int| 0 <= k < LANES implies lane_ok(
            (#[trigger] tenant2.lanes[k]).queue,
            t,
            k,
            b2.home,
        ) by {
            assert(lane_ok(tenant1.lanes[k].queue, t, k, b1.home));
            if k != l {
                lemma_lane_untouched(tenant1.lanes[k].queue, t, l, k, b1.home, b2.home);
            }
        }
        assert forall|k: int, p: int|
            0 <= k < n && 0 <= p < tenant2.lanes[k].queue.len() implies !b2.stale(
            #[trigger] tenant2.lanes[k].queue[p],
            now,
        ) by {
            if k != l {
                assert(!b1.stale(tenant1.lanes[k].queue[p], now));
            } else {
                assert(!b2.stale(kept[p], now));
            }
        }
        assert forall|k: int| 0 <= k < LANES implies (#[trigger] tenant.lanes[k]).deficit
            == tenant2.lanes[k].deficit && tenant.lanes[k].active == tenant2.lanes[k].active
            && tenant2.lanes[k].queue.len() <= tenant.lanes[k].queue.len() by {
            let _ = tenant1.lanes[k];
        }
    }
}

/// Purging only takes numbers away.
proof fn lemma_purge_home<T>(b: BooksView<T>, queue: Seq<QueueEntry<T>>, now: Instant)
    ensures
        forall|id: u64| #[trigger]
            model::purge(b, queue, now).0.home.contains_key(id) ==> b.home.contains_key(id)
                && b.home[id] == model::purge(b, queue, now).0.home[id],
    decreases queue.len(),
{
    if queue.len() > 0 {
        lemma_purge_home(b, queue.drop_last(), now);
        let (b1, kept) = model::purge(b, queue.drop_last(), now);
        let b2 = model::purge(b, queue, now).0;
        assert(b2.home == b1.home || b2.home == b1.home.remove(queue.last().id));
        assert forall|id: u64| #[trigger] b2.home.contains_key(id) implies b.home.contains_key(id)
            && b.home[id] == b2.home[id] by {
            assert(b1.home.contains_key(id));
        }
    }
}

/// Upkeep keeps the books and the tenant in order; a tenant that is still at a
/// limit afterwards has live entries only.
pub proof fn lemma_tidied<T>(
    tenant: TenantView<T>,
    b: BooksView<T>,
    limits: Limits,
    t: u64,
    now: Instant,
)
    requires
        b.inv(),
        lanes_ok(tenant, t, b.home),
        0 <= tenant.since_purge < PURGE_INTERVAL,
    ensures
        ({
            let (b1, tenant1) = tenant.tidied(b, limits, now);
            &&& b1.inv()
            &&& lanes_ok(tenant1, t, b1.home)
            &&& same_outside_tenant(b.home, b1.home, t)
            &&& same_but_queues(tenant, tenant1)
            &&& 0 <= tenant1.since_purge < PURGE_INTERVAL
            &&& b1.last_id == b.last_id
            &&& b1.cancelled.subset_of(b.cancelled)
            &&& b1.pending.subset_of(b.pending)
            &&& b.wake ==> b1.wake
            &&& b1.pending != b.pending ==> b1.wake
            &&& tenant1.full(limits) || b1.global_full(limits) ==> forall|l: int, p: int|
                0 <= l < LANES && 0 <= p < tenant1.lanes[l].queue.len() ==> !b1.stale(
                    #[trigger] tenant1.lanes[l].queue[p],
                    now,
                )
            &&& forall|id: u64| #[trigger]
                b1.home.contains_key(id) && b1.home[id].0 == t ==> b.home.contains_key(id)
                    && b.home[id] == b1.home[id]
        }),
{
    if tenant.since_purge + 1 >= PURGE_INTERVAL {
        lemma_purged(tenant, b, t, LANES as nat, now);
    } else {
        let counted = TenantView { since_purge: tenant.since_purge + 1, ..tenant };
        assert(lanes_ok(counted, t, b.home));
        lemma_purged(counted, b, t, LANES as nat, now);
    }
}

/// A tenant of the shard, or one first seen now, is in order.
pub proof fn lemma_tenant_or_fresh<T>(
    shard: ShardView<T>,
    home: Map<u64, (u64, int)>,
    i: int,
    n: nat,
    t: u64,
    quantum: int,
)
    requires
        shard.inv(home, i, n),
        model::shard_of(t, n) == i,
        1 <= quantum <= i64::MAX,
    ensures
        ({
            let tenant = shard.tenant_or_fresh(t, quantum);
            &&& lanes_ok(tenant, t, home)
            &&& 0 <= tenant.since_purge < PURGE_INTERVAL
            &&& 1 <= tenant.quantum <= i64::MAX
            &&& forall|l: int|
                0 <= l < LANES ==> 0 <= (#[trigger] tenant.lanes[l]).deficit <= i64::MAX && (
                tenant.lanes[l].active <==> shard.rings[l].contains(t)) && (
                tenant.lanes[l].queue.len() > 0 ==> tenant.lanes[l].active)
        }),
{
    let tenant = shard.tenant_or_fresh(t, quantum);
    if shard.tenants.contains_key(t) {
        assert(shard.tenant_inv(t, home));
        assert forall|l: int| 0 <= l < LANES implies lane_ok(
            (#[trigger] tenant.lanes[l]).queue,
            t,
            l,
            home,
        ) && 0 <= tenant.lanes[l].deficit <= i64::MAX && (tenant.lanes[l].active
            <==> shard.rings[l].contains(t)) && (tenant.lanes[l].queue.len() > 0
            ==> tenant.lanes[l].active) by {
            lemma_lane_of_shard(shard, home, i, n, t, l);
        }
    } else {
        assert forall|l: int| 0 <= l < LANES implies lane_ok(
            (#[trigger] tenant.lanes[l]).queue,
            t,
            l,
            home,
        ) && !shard.rings[l].contains(t) by {
            assert forall|id: u64| #[trigger] home.contains_key(id) implies home[id] != (t, l) by {
                if home[id] == (t, l) {
                    assert(shard.holds(t, l, id));
                }
            }
            if shard.rings[l].contains(t) {
                let p = choose|p: int| 0 <= p < shard.rings[l].len() && shard.rings[l][p] == t;
                assert(shard.tenants.contains_key(shard.rings[l][p]));
            }
        }
    }
}

/// Numbers of a tenant are in one of its lanes.
proof fn lemma_lane_range<T>(
    shard: ShardView<T>,
    home: Map<u64, (u64, int)>,
    i: int,
    n: nat,
    t: u64,
)
    requires
        shard.inv(home, i, n),
        model::shard_of(t, n) == i,
    ensures
        forall|id: u64| #[trigger]
            home.contains_key(id) && home[id].0 == t ==> 0 <= home[id].1 < LANES,
{
    assert forall|id: u64| #[trigger] home.contains_key(id) && home[id].0 == t implies 0
        <= home[id].1 < LANES by {
        assert(shard.holds(home[id].0, home[id].1, id));
    }
}

/// What concerns one tenant concerns its shard alone.
proof fn lemma_tenant_in_shard(
    home: Map<u64, (u64, int)>,
    home2: Map<u64, (u64, int)>,
    t: u64,
    n: nat,
)
    requires
        same_outside_tenant(home, home2, t),
    ensures
        same_outside_shard(home, home2, model::shard_of(t, n), n),
{
}

/// The shard index of a tenant is one of the scheduler's shards.
pub proof fn lemma_shard_index<T>(s: StateView<T>, t: u64)
    requires
        s.shards.len() >= 1,
    ensures
        0 <= s.shard_index(t) < s.shards.len(),
{
    let n = s.shards.len() as int;
    let x = (t as usize) as int;
    assert(0 <= x % n < n) by (nonlinear_arith)
        requires
            n >= 1,
    ;
}

/// The other parts of the scheduler's invariant after a shard was replaced by one
/// that has work only if the old one had.
proof fn lemma_rest_of_state<T>(s: StateView<T>, i: int, shard: ShardView<T>, books: BooksView<T>)
    requires
        s.inv(),
        0 <= i < s.shards.len(),
        shard.inv(books.home, i, s.shards.len()),
        same_outside_shard(s.books.home, books.home, i, s.shards.len()),
        books.inv(),
        shard.has_work() ==> s.shard_active[i],
    ensures
        s.with_shard(i, shard, books).inv(),
{
    lemma_with_shard(s, i, shard, books);
    let after = s.with_shard(i, shard, books);
    assert forall|j: int| 0 <= j < after.shards.len() implies (!(#[trigger] after.shards[j]).has_work()
        || after.shard_active[j]) by {
        if j != i {
            assert(s.shards[j].has_work() ==> s.shard_active[j]);
        }
    }
}

/// Making a tenant known and tidying it keeps the scheduler in order; a tenant
/// still at a limit afterwards has live entries only.
pub proof fn lemma_prepared<T>(
    s: StateView<T>,
    limits: Limits,
    t: u64,
    quantum: int,
    now: Instant,
)
    requires
        s.inv(),
        1 <= quantum <= i64::MAX,
    ensures
        ({
            let after = s.prepared(limits, t, quantum, now);
            &&& after.inv()
            &&& after.shards.len() == s.shards.len()
            &&& after.knows(t)
            &&& after.shard_active == s.shard_active
            &&& after.ready == s.ready
            &&& after.books.last_id == s.books.last_id
            &&& after.books.cancelled.subset_of(s.books.cancelled)
            &&& after.books.pending.subset_of(s.books.pending)
            &&& s.books.wake ==> after.books.wake
            &&& after.books.pending != s.books.pending ==> after.books.wake
            &&& after.shutdown == s.shutdown
            &&& after.tenant(t).full(limits) || after.books.global_full(limits) ==> forall|
                l: int,
                p: int,
            |
                0 <= l < LANES && 0 <= p < after.tenant(t).lanes[l].queue.len()
                    ==> !after.books.stale(#[trigger] after.tenant(t).lanes[l].queue[p], now)
        }),
{
    let i = s.shard_index(t);
    let n = s.shards.len();
    lemma_shard_index(s, t);
    let shard = s.shards[i];
    let home = s.books.home;
    lemma_tenant_or_fresh(shard, home, i, n, t, quantum);
    let tenant0 = shard.tenant_or_fresh(t, quantum);
    lemma_tidied(tenant0, s.books, limits, t, now);
    let (books, tenant) = tenant0.tidied(s.books, limits, now);
    let shard1 = shard.with_tenant(t, tenant);
    assert(shard1.tenants[t] == tenant);
    lemma_lane_range(shard, home, i, n, t);
    assert forall|l: int| 0 <= l < LANES implies 0 <= (#[trigger] shard1.tenants[t].lanes[l]).deficit
        <= i64::MAX && (shard1.tenants[t].lanes[l].queue.len() > 0
        ==> shard1.tenants[t].lanes[l].active) && lane_ok(
        shard1.tenants[t].lanes[l].queue,
        t,
        l,
        books.home,
    ) && (shard1.rings[l].contains(t) <==> shard1.tenants[t].lanes[l].active) by {
        let _ = tenant0.lanes[l];
        let _ = tenant.lanes[l];
    }
    lemma_replace_tenant(shard, shard1, t, home, books.home, i, n);
    lemma_tenant_in_shard(home, books.home, t, n);
    assert(s.shards[i].has_work() ==> s.shard_active[i]);
    lemma_rest_of_state(s, i, shard1, books);
}

/// Appending a task keeps the scheduler in order.
pub proof fn lemma_accepted<T>(s: StateView<T>, t: u64, task: Task<T>)
    requires
        s.inv(),
        s.knows(t),
        s.books.last_id < u64::MAX,
    ensures
        s.accepted(t, task, true).inv(),
{
    let i = s.shard_index(t);
    let n = s.shards.len();
    lemma_shard_index(s, t);
    let l = task.priority.rank();
    let id = (s.books.last_id + 1) as u64;
    let books0 = s.books.enroll(t, l, true);
    let books = BooksView {
        wake: books0.wake || s.tenant(t).lanes[l].queue.len() == 0,
        ..books0
    };
    assert(!s.books.home.contains_key(id));
    assert(!s.books.pending.union(s.books.cancelled).contains(id));
    assert(books.home.dom() =~= books.pending.union(books.cancelled));
    assert(books.inv());
    lemma_accepted_shards(s, t, task, books);
}

/// The part of the previous that does not depend on how the books count.
proof fn lemma_accepted_shards<T>(s: StateView<T>, t: u64, task: Task<T>, books: BooksView<T>)
    requires
        s.shards.len() >= 1,
        s.shards.len() <= usize::MAX,
        s.shard_active.len() == s.shards.len(),
        forall|i: int|
            0 <= i < s.shards.len() ==> (#[trigger] s.shards[i]).inv(
                s.books.home,
                i,
                s.shards.len(),
            ),
        s.ready.no_duplicates(),
        forall|p: int| 0 <= p < s.ready.len() ==> (#[trigger] s.ready[p]) < s.shards.len(),
        forall|i: int|
            0 <= i < s.shards.len() ==> (#[trigger] s.shard_active[i] <==> s.ready.contains(
                i as usize,
            )),
        forall|i: int|
            0 <= i < s.shards.len() ==> ((#[trigger] s.shards[i]).has_work() ==> s.shard_active[i]),
        s.knows(t),
        books.inv(),
        s.books.last_id < u64::MAX,
        0 <= s.books.last_id,
        forall|id: u64| #[trigger] s.books.home.contains_key(id) ==> id <= s.books.last_id,
        books.home == s.books.home.insert(
            (s.books.last_id + 1) as u64,
            (t, task.priority.rank()),
        ),
    ensures
        ({
            let i = s.shard_index(t);
            let l = task.priority.rank();
            let entry = QueueEntry { id: (s.books.last_id + 1) as u64, task };
            let state = s.with_shard(i, s.shards[i].appended(t, l, entry), books);
            if s.shard_active[i] {
                state.inv()
            } else {
                (StateView {
                    ready: s.ready.push(i as usize),
                    shard_active: s.shard_active.update(i, true),
                    ..state
                }).inv()
            }
        }),
{
    let i = s.shard_index(t);
    let n = s.shards.len();
    lemma_shard_index(s, t);
    let shard = s.shards[i];
    let home = s.books.home;
    let home2 = books.home;
    let l = task.priority.rank();
    let id = (s.books.last_id + 1) as u64;
    let entry = QueueEntry { id, task };
    assert(shard.inv(home, i, n));
    assert(!home.contains_key(id));
    let shard1 = shard.appended(t, l, entry);
    assert(shard.tenant_inv(t, home));
    lemma_lane_of_shard(shard, home, i, n, t, l);
    let lane = shard.tenants[t].lanes[l];
    let lane1 = shard1.tenants[t].lanes[l];
    assert(lane1.queue == lane.queue.push(entry));
    assert(lane_ok(lane1.queue, t, l, home2)) by {
        assert forall|p: int| 0 <= p < lane1.queue.len() implies home2.contains_key(
            (#[trigger] lane1.queue[p]).id,
        ) && home2[lane1.queue[p].id] == (t, l) && lane1.queue[p].task.priority.rank() == l by {
            if p < lane.queue.len() {
                assert(home.contains_key(lane.queue[p].id));
            }
        }
        assert forall|p: int, q: int| 0 <= p < q < lane1.queue.len() implies (
        #[trigger] lane1.queue[p]).id < (#[trigger] lane1.queue[q]).id by {
            assert(home.contains_key(lane.queue[p].id));
        }
        assert forall|x: u64| #[trigger] home2.contains_key(x) && home2[x] == (t, l) implies exists|
            p: int,
        | 0 <= p < lane1.queue.len() && (#[trigger] lane1.queue[p]).id == x by {
            if x == id {
                assert(lane1.queue[lane.queue.len() as int].id == id);
            } else {
                assert(home.contains_key(x));
                let p = choose|p: int| 0 <= p < lane.queue.len() && (#[trigger] lane.queue[p]).id == x;
                assert(lane1.queue[p].id == x);
            }
        }
    }
    assert(same_outside_lane(home, home2, t, l));
    lemma_lane_range(shard, home, i, n, t);
    assert forall|k: int| 0 <= k < LANES implies 0 <= (#[trigger] shard1.tenants[t].lanes[k]).deficit
        <= i64::MAX && (shard1.tenants[t].lanes[k].queue.len() > 0
        ==> shard1.tenants[t].lanes[k].active) && lane_ok(
        shard1.tenants[t].lanes[k].queue,
        t,
        k,
        home2,
    ) by {
        lemma_lane_of_shard(shard, home, i, n, t, k);
        if k != l {
            lemma_lane_untouched(shard.tenants[t].lanes[k].queue, t, l, k, home, home2);
        }
    }
    lemma_joined(shard.rings[l], t);
    assert forall|k: int| 0 <= k < LANES implies (shard1.rings[k].contains(t)
        <==> (#[trigger] shard1.tenants[t].lanes[k]).active) by {
        lemma_lane_of_shard(shard, home, i, n, t, k);
    }
    lemma_replace_tenant(shard, shard1, t, home, home2, i, n);
    lemma_tenant_in_shard(home, home2, t, n);
    let state = s.with_shard(i, shard1, books);
    assert forall|j: int| 0 <= j < n implies (#[trigger] state.shards[j]).inv(home2, j, n) by {
        if j != i {
            lemma_other_shard(s.shards[j], home, home2, i, j, n);
        }
    }
    if !s.shard_active[i] {
        lemma_joined(s.ready, i as usize);
        let after = StateView {
            ready: s.ready.push(i as usize),
            shard_active: s.shard_active.update(i, true),
            ..state
        };
        assert forall|j: int| 0 <= j < n implies (#[trigger] after.shard_active[j]
            <==> after.ready.contains(j as usize)) by {
            assert(s.shard_active[j] <==> s.ready.contains(j as usize));
        }
        assert forall|j: int| 0 <= j < n implies (!(#[trigger] after.shards[j]).has_work()
            || after.shard_active[j]) by {
            if j != i {
                assert(s.shards[j].has_work() ==> s.shard_active[j]);
            }
        }
    } else {
        assert forall|j: int| 0 <= j < n implies (!(#[trigger] state.shards[j]).has_work()
            || state.shard_active[j]) by {
            if j != i {
                assert(s.shards[j].has_work() ==> s.shard_active[j]);
            }
        }
    }
}

/// A ring that something new joins.
proof fn lemma_joined<A>(ring: Seq<A>, x: A)
    requires
        ring.no_duplicates(),
    ensures
        ring.push(x).contains(x),
        !ring.contains(x) ==> ring.push(x).no_duplicates(),
        forall|u: A| u != x ==> (#[trigger] ring.push(x).contains(u) <==> ring.contains(u)),
{
    let longer = ring.push(x);
    assert(longer[ring.len() as int] == x);
    assert forall|u: A| u != x implies (#[trigger] longer.contains(u) <==> ring.contains(u)) by {
        if longer.contains(u) {
            let p = choose|p: int| 0 <= p < longer.len() && longer[p] == u;
            assert(ring[p] == u);
        }
        if ring.contains(u) {
            let p = choose|p: int| 0 <= p < ring.len() && ring[p] == u;
            assert(longer[p] == u);
        }
    }
}

/// Cancelling keeps the scheduler in order.
pub proof fn lemma_cancel<T>(s: StateView<T>, id: u64)
    requires
        s.inv(),
    ensures
        s.cancel(id).inv(),
{
    let after = s.cancel(id);
    if s.books.pending.contains(id) {
        assert(s.books.pending.len() > 0);
        assert(after.books.home.dom() =~= after.books.pending.union(after.books.cancelled));
    }
}

/// Counting a rejection keeps the scheduler in order.
pub proof fn lemma_counting_reject<T>(s: StateView<T>, reason: EnqueueRejectReason)
    requires
        s.inv(),
    ensures
        s.counting_reject(reason).inv(),
{
}

/// Closing keeps the scheduler in order.
pub proof fn lemma_close<T>(s: StateView<T>, mode: CloseMode)
    requires
        s.inv(),
    ensures
        s.close(mode).inv(),
{
}

/// A new scheduler is in order.
pub proof fn lemma_initial<T>(
    count: nat,
    capacity: nat,
    quanta: Map<u64, u64>,
    provider: Option<QuantumProvider>,
)
    requires
        1 <= count <= usize::MAX,
    ensures
        StateView::<T>::initial(count, capacity, quanta, provider).inv(),
{
    let s = StateView::<T>::initial(count, capacity, quanta, provider);
    assert(s.books.home.dom() =~= s.books.pending.union(s.books.cancelled));
}

/// Another quantum for a tenant keeps the scheduler in order.
pub proof fn lemma_with_quantum<T>(s: StateView<T>, t: u64, quantum: int)
    requires
        s.inv(),
        1 <= quantum <= i64::MAX,
    ensures
        s.with_quantum(t, quantum).inv(),
        s.with_quantum(t, quantum).shards.len() == s.shards.len(),
{
    if s.knows(t) {
        let i = s.shard_index(t);
        let n = s.shards.len();
        lemma_shard_index(s, t);
        let shard = s.shards[i];
        let home = s.books.home;
        let shard1 = shard.with_tenant(t, TenantView { quantum, ..s.tenant(t) });
        assert(shard.tenant_inv(t, home));
        lemma_lane_range(shard, home, i, n, t);
        assert forall|k: int| 0 <= k < LANES implies 0 <= (
        #[trigger] shard1.tenants[t].lanes[k]).deficit <= i64::MAX && (
        shard1.tenants[t].lanes[k].queue.len() > 0 ==> shard1.tenants[t].lanes[k].active)
            && lane_ok(shard1.tenants[t].lanes[k].queue, t, k, home) && (shard1.rings[k].contains(t)
            <==> shard1.tenants[t].lanes[k].active) by {
            lemma_lane_of_shard(shard, home, i, n, t, k);
        }
        lemma_replace_tenant(shard, shard1, t, home, home, i, n);
        assert(s.shards[i].has_work() ==> s.shard_active[i]);
        lemma_rest_of_state(s, i, shard1, s.books);
    }
}

/// Giving up a live entry for a new task keeps the scheduler in order.
pub proof fn lemma_swapped<T>(s: StateView<T>, t: u64, l: int, p: int, task: Task<T>)
    requires
        s.inv(),
        s.knows(t),
        s.books.last_id < u64::MAX,
        0 <= l < LANES,
        0 <= p < s.tenant(t).lanes[l].queue.len(),
        !s.books.cancelled.contains(s.tenant(t).lanes[l].queue[p].id),
    ensures
        s.without_victim(t, l, p).accepted(t, task, false).inv(),
{
    let i = s.shard_index(t);
    let n = s.shards.len();
    lemma_shard_index(s, t);
    let shard = s.shards[i];
    let home = s.books.home;
    let lighter = s.without_victim(t, l, p);
    let home1 = lighter.books.home;
    let queue = s.tenant(t).lanes[l].queue;
    let gone = queue[p].id;
    let shard1 = lighter.shards[i];
    assert(shard.tenant_inv(t, home));
    lemma_lane_of_shard(shard, home, i, n, t, l);
    lemma_lane_remove(queue, p, t, l, home);
    lemma_lane_range(shard, home, i, n, t);
    assert forall|k: int| 0 <= k < LANES implies 0 <= (#[trigger] shard1.tenants[t].lanes[k]).deficit
        <= i64::MAX && (shard1.tenants[t].lanes[k].queue.len() > 0
        ==> shard1.tenants[t].lanes[k].active) && lane_ok(
        shard1.tenants[t].lanes[k].queue,
        t,
        k,
        home1,
    ) && (shard1.rings[k].contains(t) <==> shard1.tenants[t].lanes[k].active) by {
        lemma_lane_of_shard(shard, home, i, n, t, k);
        if k != l {
            lemma_lane_untouched(shard.tenants[t].lanes[k].queue, t, l, k, home, home1);
        }
    }
    lemma_replace_tenant(shard, shard1, t, home, home1, i, n);
    lemma_tenant_in_shard(home, home1, t, n);
    lemma_with_shard(s, i, shard1, lighter.books);
    assert(s.shards[i].has_work() ==> s.shard_active[i]);
    assert forall|j: int| 0 <= j < n implies (!(#[trigger] lighter.shards[j]).has_work()
        || lighter.shard_active[j]) by {
        if j != i {
            assert(s.shards[j].has_work() ==> s.shard_active[j]);
        }
    }
    let rank = task.priority.rank();
    let id = (s.books.last_id + 1) as u64;
    let books0 = lighter.books.enroll(t, rank, false);
    let books = BooksView {
        wake: books0.wake || lighter.tenant(t).lanes[rank].queue.len() == 0,
        ..books0
    };
    assert(s.books.pending.contains(gone));
    assert(!s.books.home.contains_key(id));
    assert(!s.books.pending.union(s.books.cancelled).contains(id));
    assert(books.home.dom() =~= books.pending.union(books.cancelled));
    assert(s.books.pending.len() > 0);
    assert(books.inv());
    lemma_accepted_shards(lighter, t, task, books);
}

/// The entry that a strategy gives up is there.
pub proof fn lemma_victim<T>(tenant: TenantView<T>, rank: int, strategy: DropStrategy)
    requires
        tenant.victim_lane(rank) is Some,
    ensures
        ({
            let l = tenant.victim_lane(rank)->0;
            &&& 0 <= l < LANES
            &&& 0 <= tenant.victim_position(l, strategy) < tenant.lanes[l].queue.len()
        }),
{
}

/// An attempt to enqueue keeps the scheduler in order.
pub proof fn lemma_try_enqueue<T>(
    s: StateView<T>,
    limits: Limits,
    t: u64,
    task: Task<T>,
    quantum: int,
    now: Instant,
)
    requires
        s.inv(),
        1 <= quantum <= i64::MAX,
    ensures
        s.try_enqueue(limits, t, task, quantum, now).0.inv(),
{
    lemma_prepared(s, limits, t, quantum, now);
    let state = s.prepared(limits, t, quantum, now);
    if !state.books.global_full(limits) {
        lemma_accepted(state, t, task);
    }
}

/// An enqueue that turns tasks away keeps the scheduler in order.
pub proof fn lemma_enqueue_reject<T>(
    s: StateView<T>,
    limits: Limits,
    t: u64,
    task: Task<T>,
    quantum: int,
    now: Instant,
)
    requires
        s.inv(),
        1 <= quantum <= i64::MAX,
    ensures
        s.enqueue_reject(limits, t, task, quantum, now).0.inv(),
{
    lemma_try_enqueue(s, limits, t, task, quantum, now);
    let (state, attempt) = s.try_enqueue(limits, t, task, quantum, now);
    if let EnqueueAttempt::Full(_, reason) = attempt {
        lemma_counting_reject(state, reason);
    }
}

/// An enqueue that gives up tasks keeps the scheduler in order.
pub proof fn lemma_enqueue_drop<T>(
    s: StateView<T>,
    limits: Limits,
    t: u64,
    task: Task<T>,
    strategy: DropStrategy,
    quantum: int,
    now: Instant,
)
    requires
        s.inv(),
        1 <= quantum <= i64::MAX,
    ensures
        s.enqueue_drop(limits, t, task, strategy, quantum, now).0.inv(),
{
    lemma_prepared(s, limits, t, quantum, now);
    let state = s.prepared(limits, t, quantum, now);
    let tenant = state.tenant(t);
    let rank = task.priority.rank();
    if !tenant.full(limits) && !state.books.global_full(limits) {
        lemma_accepted(state, t, task);
    } else if tenant.victim_lane(rank) is None || state.books.last_id >= u64::MAX {
        lemma_counting_reject(state, EnqueueRejectReason::TenantFull);
        lemma_counting_reject(state, EnqueueRejectReason::GlobalFull);
    } else {
        lemma_victim(tenant, rank, strategy);
        let l = tenant.victim_lane(rank)->0;
        let p = tenant.victim_position(l, strategy);
        assert(!state.books.stale(tenant.lanes[l].queue[p], now));
        lemma_swapped(state, t, l, p, task);
    }
}

} // verus!
