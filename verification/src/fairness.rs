//! How turns are shared out: who is served in a round, what those passed over earn,
//! and how long a tenant can be kept waiting.
use vstd::prelude::*;

use crate::api::Task;
use crate::delivery;
use crate::invariants;
use crate::model;
use crate::model::{BooksView, LaneView, Limits, QueueEntry, ShardView, StateView, LANES};
use crate::time::Instant;

verus! {

/// The first entry that is not stale.
pub open spec fn next_live<T>(queue: Seq<QueueEntry<T>>, b: BooksView<T>, now: Instant) -> Option<
    QueueEntry<T>,
>
    decreases queue.len(),
{
    if queue.len() == 0 {
        None
    } else if b.stale(queue[0], now) {
        next_live(queue.drop_first(), b, now)
    } else {
        Some(queue[0])
    }
}

/// The lane has a live entry, and the budget to pay for the first of them.
pub open spec fn affordable<T>(lane: LaneView<T>, b: BooksView<T>, now: Instant) -> bool {
    next_live(lane.queue, b, now) matches Some(entry) && lane.deficit >= model::budget(
        entry.task.cost as int,
    )
}

/// The first live entry is the one behind all the stale ones in front.
proof fn lemma_next_live_at<T>(queue: Seq<QueueEntry<T>>, b: BooksView<T>, now: Instant, k: int)
    requires
        0 <= k <= queue.len(),
        forall|p: int| 0 <= p < k ==> b.stale(#[trigger] queue[p], now),
        k < queue.len() ==> !b.stale(queue[k], now),
    ensures
        next_live(queue, b, now) == if k < queue.len() {
            Some(queue[k])
        } else {
            None
        },
    decreases queue.len(),
{
    if k > 0 {
        assert(b.stale(queue[0], now));
        let rest = queue.drop_first();
        assert forall|p: int| 0 <= p < k - 1 implies b.stale(#[trigger] rest[p], now) by {
            assert(b.stale(queue[p + 1], now));
        }
        lemma_next_live_at(rest, b, now, k - 1);
    }
}

/// What is left of a queue after stripping starts with its first live entry.
proof fn lemma_strip_next_live<T>(
    b: BooksView<T>,
    queue: Seq<QueueEntry<T>>,
    t: u64,
    l: int,
    now: Instant,
)
    requires
        b.inv(),
        invariants::lane_ok(queue, t, l, b.home),
    ensures
        ({
            let left = model::strip(b, queue, now).1;
            next_live(queue, b, now) == if left.len() > 0 {
                Some(left[0])
            } else {
                None
            }
        }),
{
    let k = delivery::lemma_strip_trims(b, queue, t, l, now);
    invariants::lemma_strip(b, queue, t, l, now);
    let (b1, left) = model::strip(b, queue, now);
    if left.len() > 0 {
        assert(left[0] == queue[k]);
        assert(b1.pending.contains(left[0].id));
        assert(!b.cancelled.contains(left[0].id));
    }
    lemma_next_live_at(queue, b, now, k);
}

/// Whether an entry is stale does not depend on what else the books have lost.
proof fn lemma_stale_same<T>(b: BooksView<T>, b1: BooksView<T>, entry: QueueEntry<T>, now: Instant)
    requires
        b.inv(),
        b1.inv(),
        delivery::worn(b, b1),
        b1.home.contains_key(entry.id),
    ensures
        b1.stale(entry, now) == b.stale(entry, now),
{
    assert(b1.pending.union(b1.cancelled).contains(entry.id));
}

/// The first live entry of a queue does not depend on what else the books have lost.
pub proof fn lemma_next_live_same<T>(
    queue: Seq<QueueEntry<T>>,
    b: BooksView<T>,
    b1: BooksView<T>,
    now: Instant,
)
    requires
        b.inv(),
        b1.inv(),
        delivery::worn(b, b1),
        forall|p: int| 0 <= p < queue.len() ==> b1.home.contains_key((#[trigger] queue[p]).id),
    ensures
        next_live(queue, b1, now) == next_live(queue, b, now),
    decreases queue.len(),
{
    if queue.len() > 0 {
        lemma_stale_same(b, b1, queue[0], now);
        let rest = queue.drop_first();
        assert forall|p: int| 0 <= p < rest.len() implies b1.home.contains_key(
            (#[trigger] rest[p]).id,
        ) by {
            assert(b1.home.contains_key(queue[p + 1].id));
        }
        lemma_next_live_same(rest, b, b1, now);
    }
}

/// What becomes of a lane whose tenant has its turn without being served: stale
/// entries in front go; if a live one is behind them, it could not be paid for, and
/// the budget grows by the quantum; if not, the budget stays.
pub open spec fn passed_over<T>(
    lane: LaneView<T>,
    after: LaneView<T>,
    quantum: int,
    b: BooksView<T>,
    now: Instant,
) -> bool {
    match next_live(lane.queue, b, now) {
        Some(entry) => {
            &&& lane.deficit < model::budget(entry.task.cost as int)
            &&& after.deficit == model::budget(lane.deficit + quantum)
            &&& after.queue.len() > 0
            &&& after.queue[0] == entry
        },
        None => after.queue.len() == 0 && after.deficit == lane.deficit,
    }
}

/// What becomes of a lane whose tenant is served: its first live entry goes, paid for
/// out of the budget.
pub open spec fn served<T>(
    lane: LaneView<T>,
    after: LaneView<T>,
    entry: QueueEntry<T>,
    b: BooksView<T>,
    now: Instant,
) -> bool {
    &&& next_live(lane.queue, b, now) == Some(entry)
    &&& lane.deficit >= model::budget(entry.task.cost as int)
    &&& after.deficit == lane.deficit - model::budget(entry.task.cost as int)
}

/// What a turn does: the tenant in front is served exactly if it can pay.
pub proof fn lemma_turn_serves<T>(
    shard: ShardView<T>,
    b: BooksView<T>,
    l: int,
    now: Instant,
    i: int,
    n: nat,
)
    requires
        shard.inv(b.home, i, n),
        b.inv(),
        0 <= l < LANES,
        shard.rings[l].len() > 0,
    ensures
        ({
            let (after, b1, found) = shard.turn(b, l, now);
            let t = shard.rings[l][0];
            let lane = shard.tenants[t].lanes[l];
            let rest = shard.rings[l].drop_first();
            &&& found is Some <==> affordable(lane, b, now)
            &&& match found {
                Some((u, entry)) => u == t && served(
                    lane,
                    after.tenants[t].lanes[l],
                    entry,
                    b,
                    now,
                ),
                None => passed_over(
                    lane,
                    after.tenants[t].lanes[l],
                    shard.tenants[t].quantum,
                    b,
                    now,
                ) && (next_live(lane.queue, b, now) is Some ==> after.rings[l] == rest.push(t)),
            }
            &&& after.rings[l] == rest || after.rings[l] == rest.push(t)
            &&& forall|m: int|
                0 <= m < LANES && m != l ==> (#[trigger] after.rings[m]) == shard.rings[m]
            &&& after.tenants[t].quantum == shard.tenants[t].quantum
            &&& forall|u: u64|
                u != t && shard.tenants.contains_key(u) ==> (#[trigger] after.tenants[u])
                    == shard.tenants[u]
            &&& after.tenants.dom() == shard.tenants.dom()
        }),
{
    let t = shard.rings[l][0];
    assert(shard.tenants.contains_key(t));
    invariants::lemma_lane_of_shard(shard, b.home, i, n, t, l);
    assert(shard.tenant_inv(t, b.home));
    let lane = shard.tenants[t].lanes[l];
    lemma_strip_next_live(b, lane.queue, t, l, now);
    assert(shard.turn(b, l, now).0.tenants.dom() =~= shard.tenants.dom());
}

/// What a turn of another tenant leaves of a tenant's prospects.
proof fn lemma_turn_leaves<T>(
    shard: ShardView<T>,
    b: BooksView<T>,
    l: int,
    now: Instant,
    i: int,
    n: nat,
    u: u64,
    m: int,
)
    requires
        shard.inv(b.home, i, n),
        b.inv(),
        0 <= l < LANES,
        0 <= m < LANES,
        shard.rings[l].len() > 0,
        shard.tenants.contains_key(u),
        u != shard.rings[l][0] || m != l,
    ensures
        ({
            let (after, b1, found) = shard.turn(b, l, now);
            &&& after.tenants[u].lanes[m] == shard.tenants[u].lanes[m]
            &&& next_live(shard.tenants[u].lanes[m].queue, b1, now) == next_live(
                shard.tenants[u].lanes[m].queue,
                b,
                now,
            )
        }),
{
    let (after, b1, found) = shard.turn(b, l, now);
    invariants::lemma_turn(shard, b, l, now, i, n);
    delivery::lemma_turn_outcome(shard, b, l, now, i, n);
    let t = shard.rings[l][0];
    assert(shard.tenants.contains_key(t));
    assert(shard.tenant_inv(t, b.home));
    assert(after.tenants.contains_key(u));
    assert(after.tenants[u].lanes[m] == shard.tenants[u].lanes[m]);
    invariants::lemma_lane_of_shard(after, b1.home, i, n, u, m);
    lemma_next_live_same(shard.tenants[u].lanes[m].queue, b, b1, now);
}

/// A round of up to `turns` turns, each of another tenant: it serves the first
/// tenant in turn order that can pay, if there is one among them, and passes over
/// those before it; nothing else changes in the lanes, and the tenants behind the one
/// that was served move up. Gives back the position of the tenant that was served, or
/// the number of turns.
pub proof fn lemma_round<T>(
    shard: ShardView<T>,
    b: BooksView<T>,
    l: int,
    turns: nat,
    now: Instant,
    i: int,
    n: nat,
) -> (p: int)
    requires
        shard.inv(b.home, i, n),
        b.inv(),
        0 <= l < LANES,
        turns <= shard.rings[l].len(),
    ensures
        ({
            let (after, b1, found) = shard.pass(b, l, turns, now);
            let ring = shard.rings[l];
            &&& 0 <= p <= turns
            &&& found is Some <==> p < turns
            &&& forall|q: int|
                0 <= q < p ==> passed_over(
                    shard.tenants[#[trigger] ring[q]].lanes[l],
                    after.tenants[ring[q]].lanes[l],
                    shard.tenants[ring[q]].quantum,
                    b,
                    now,
                )
            &&& found matches Some((t, entry)) ==> ring[p] == t && served(
                shard.tenants[t].lanes[l],
                after.tenants[t].lanes[l],
                entry,
                b,
                now,
            )
            &&& forall|u: u64|
                shard.tenants.contains_key(u) && (forall|q: int|
                    0 <= q < turns ==> #[trigger] ring[q] != u) ==> (#[trigger] after.tenants[u])
                    == shard.tenants[u]
            &&& forall|u: u64, m: int|
                shard.tenants.contains_key(u) && 0 <= m < LANES && m != l ==> (
                #[trigger] after.tenants[u].lanes[m]) == shard.tenants[u].lanes[m]
            &&& forall|u: u64|
                shard.tenants.contains_key(u) ==> (#[trigger] after.tenants[u]).quantum
                    == shard.tenants[u].quantum
            &&& after.tenants.dom() == shard.tenants.dom()
            &&& found is Some ==> after.rings[l].len() >= ring.len() - p - 1 && forall|q: int|
                p < q < ring.len() ==> after.rings[l][q - p - 1] == #[trigger] ring[q]
                    && after.tenants[ring[q]] == shard.tenants[ring[q]]
            &&& forall|m: int|
                0 <= m < LANES && m != l ==> (#[trigger] after.rings[m]) == shard.rings[m]
        }),
    decreases turns,
{
    if turns == 0 || shard.rings[l].len() == 0 {
        0
    } else {
        let ring = shard.rings[l];
        let t0 = ring[0];
        assert(shard.tenants.contains_key(t0));
        assert(shard.tenant_inv(t0, b.home));
        lemma_turn_serves(shard, b, l, now, i, n);
        invariants::lemma_turn(shard, b, l, now, i, n);
        let (s1, b1, found1) = shard.turn(b, l, now);
        if found1 is Some {
            assert forall|q: int| 0 < q < ring.len() implies s1.rings[l][q - 1]
                == #[trigger] ring[q] && s1.tenants[ring[q]] == shard.tenants[ring[q]] by {
                assert(ring[q] != ring[0]);
                assert(shard.tenants.contains_key(shard.rings[l][q]));
            }
            0
        } else {
            let ring1 = s1.rings[l];
            assert(forall|q: int| 0 <= q < ring.len() - 1 ==> #[trigger] ring1[q] == ring[q + 1]);
            let p1 = lemma_round(s1, b1, l, (turns - 1) as nat, now, i, n);
            let p = p1 + 1;
            let (after, b2, found) = s1.pass(b1, l, (turns - 1) as nat, now);
            assert forall|q: int| 1 <= q < ring.len() implies {
                &&& s1.tenants[#[trigger] ring[q]] == shard.tenants[ring[q]]
                &&& next_live(shard.tenants[ring[q]].lanes[l].queue, b1, now) == next_live(
                    shard.tenants[ring[q]].lanes[l].queue,
                    b,
                    now,
                )
                &&& ring[q] != t0
                &&& ring1[q - 1] == ring[q]
            } by {
                assert(ring[q] != ring[0]);
                assert(shard.tenants.contains_key(shard.rings[l][q]));
                lemma_turn_leaves(shard, b, l, now, i, n, ring[q], l);
            }
            assert(forall|q: int| 0 <= q < turns - 1 ==> #[trigger] ring1[q] != t0);
            assert(after.tenants[t0] == s1.tenants[t0]);
            assert forall|q: int| 0 <= q < p implies passed_over(
                shard.tenants[#[trigger] ring[q]].lanes[l],
                after.tenants[ring[q]].lanes[l],
                shard.tenants[ring[q]].quantum,
                b,
                now,
            ) by {
                if q > 0 {
                    assert(passed_over(
                        s1.tenants[ring1[q - 1]].lanes[l],
                        after.tenants[ring1[q - 1]].lanes[l],
                        s1.tenants[ring1[q - 1]].quantum,
                        b1,
                        now,
                    ));
                }
            }
            assert forall|u: u64|
                shard.tenants.contains_key(u) && (forall|q: int|
                    0 <= q < turns ==> #[trigger] ring[q] != u) implies (
            #[trigger] after.tenants[u]) == shard.tenants[u] by {
                assert(ring[0] != u);
                assert forall|q: int| 0 <= q < turns - 1 implies #[trigger] ring1[q] != u by {
                    assert(ring[q + 1] != u);
                }
                assert(s1.tenants.contains_key(u));
            }
            assert forall|u: u64, m: int|
                shard.tenants.contains_key(u) && 0 <= m < LANES && m != l implies (
            #[trigger] after.tenants[u].lanes[m]) == shard.tenants[u].lanes[m] by {
                assert(s1.tenants.contains_key(u));
                lemma_turn_leaves(shard, b, l, now, i, n, u, m);
            }
            assert forall|u: u64| shard.tenants.contains_key(u) implies (
            #[trigger] after.tenants[u]).quantum == shard.tenants[u].quantum by {
                assert(s1.tenants.contains_key(u));
            }
            if let Some((t, entry)) = found {
                assert(ring1[p1] == ring[p1 + 1]);
                assert(ring[p] == t);
                assert forall|q: int| p < q < ring.len() implies after.rings[l][q - p - 1]
                    == #[trigger] ring[q] && after.tenants[ring[q]] == shard.tenants[ring[q]] by {
                    assert(ring1[q - 1] == ring[q]);
                }
            }
            p
        }
    }
}

/// What a dequeue from a shard does to the lanes of the priorities from `l` on.
pub open spec fn shard_round<T>(
    shard: ShardView<T>,
    b: BooksView<T>,
    after: ShardView<T>,
    found: Option<(u64, QueueEntry<T>)>,
    l: int,
    now: Instant,
) -> bool {
    let last = match found {
        Some((_, entry)) => entry.task.priority.rank(),
        None => LANES as int,
    };
    &&& after.tenants.dom() == shard.tenants.dom()
    &&& forall|u: u64|
        shard.tenants.contains_key(u) ==> (#[trigger] after.tenants[u]).quantum
            == shard.tenants[u].quantum
    &&& forall|u: u64, m: int|
        shard.tenants.contains_key(u) && l <= m < last ==> passed_over(
            shard.tenants[u].lanes[m],
            #[trigger] after.tenants[u].lanes[m],
            shard.tenants[u].quantum,
            b,
            now,
        )
    &&& forall|u: u64, m: int|
        shard.tenants.contains_key(u) && 0 <= m < l ==> (#[trigger] after.tenants[u].lanes[m])
            == shard.tenants[u].lanes[m]
    &&& found matches Some((t, entry)) ==> l <= last < LANES && shard.tenants.contains_key(t)
        && served(shard.tenants[t].lanes[last], after.tenants[t].lanes[last], entry, b, now)
}

/// A lane that is not in its ring is passed over without a turn.
proof fn lemma_idle_lane<T>(lane: LaneView<T>, quantum: int, b: BooksView<T>, now: Instant)
    requires
        lane.queue.len() == 0,
    ensures
        passed_over(lane, lane, quantum, b, now),
{
}

/// What a dequeue from a shard does to the lanes.
pub proof fn lemma_shard_round<T>(
    shard: ShardView<T>,
    b: BooksView<T>,
    l: int,
    now: Instant,
    i: int,
    n: nat,
)
    requires
        shard.inv(b.home, i, n),
        b.inv(),
        0 <= l <= LANES,
    ensures
        ({
            let (after, b1, found) = shard.dequeue_from(b, l, now);
            shard_round(shard, b, after, found, l, now)
        }),
    decreases LANES - l,
{
    if l < LANES {
        let turns = shard.rings[l].len();
        let ring = shard.rings[l];
        let p = lemma_round(shard, b, l, turns, now, i, n);
        invariants::lemma_pass(shard, b, l, turns, now, i, n);
        delivery::lemma_pass_outcome(shard, b, l, turns, now, i, n);
        let (s1, b1, found1) = shard.pass(b, l, turns, now);
        if let Some((t, entry)) = found1 {
            assert(entry.task.priority.rank() == l) by {
                assert(shard.tenants.contains_key(shard.rings[l][p]));
                invariants::lemma_lane_of_shard(shard, b.home, i, n, t, l);
                lemma_next_live_in(shard.tenants[t].lanes[l].queue, b, now);
            }
        } else {
            assert forall|u: u64| shard.tenants.contains_key(u) implies passed_over(
                shard.tenants[u].lanes[l],
                #[trigger] s1.tenants[u].lanes[l],
                shard.tenants[u].quantum,
                b,
                now,
            ) by {
                invariants::lemma_lane_of_shard(shard, b.home, i, n, u, l);
                if ring.contains(u) {
                    let q = choose|q: int| 0 <= q < ring.len() && ring[q] == u;
                    assert(ring[q] == u);
                } else {
                    assert forall|q: int| 0 <= q < turns implies #[trigger] ring[q] != u by {
                        assert(ring.contains(ring[q]));
                    }
                    lemma_idle_lane(shard.tenants[u].lanes[l], shard.tenants[u].quantum, b, now);
                }
            }
            lemma_shard_round(s1, b1, l + 1, now, i, n);
            let (s2, b2, found) = s1.dequeue_from(b1, l + 1, now);
            let last = match found {
                Some((_, entry)) => entry.task.priority.rank(),
                None => LANES as int,
            };
            assert forall|u: u64, m: int|
                shard.tenants.contains_key(u) && l < m < LANES implies (
            #[trigger] shard.tenants[u].lanes[m]) == s1.tenants[u].lanes[m] && next_live(
                shard.tenants[u].lanes[m].queue,
                b1,
                now,
            ) == next_live(shard.tenants[u].lanes[m].queue, b, now) by {
                assert(s1.tenants.contains_key(u));
                let _ = s1.tenants[u].lanes[m];
                invariants::lemma_lane_of_shard(s1, b1.home, i, n, u, m);
                lemma_next_live_same(s1.tenants[u].lanes[m].queue, b, b1, now);
            }
            assert forall|u: u64, m: int|
                shard.tenants.contains_key(u) && l <= m < last implies passed_over(
                shard.tenants[u].lanes[m],
                #[trigger] s2.tenants[u].lanes[m],
                shard.tenants[u].quantum,
                b,
                now,
            ) by {
                assert(s1.tenants.contains_key(u));
                let _ = s1.tenants[u];
                let _ = shard.tenants[u].lanes[m];
                if m == l {
                    assert(s2.tenants[u].lanes[m] == s1.tenants[u].lanes[m]);
                }
            }
            assert forall|u: u64, m: int|
                shard.tenants.contains_key(u) && 0 <= m < l implies (
            #[trigger] s2.tenants[u].lanes[m]) == shard.tenants[u].lanes[m] by {
                assert(s1.tenants.contains_key(u));
                let _ = s1.tenants[u].lanes[m];
            }
            assert forall|u: u64| shard.tenants.contains_key(u) implies (
            #[trigger] s2.tenants[u]).quantum == shard.tenants[u].quantum by {
                let _ = s1.tenants[u];
            }
            if let Some((t, entry)) = found {
                assert(s1.tenants.contains_key(t));
                let _ = shard.tenants[t].lanes[last];
            }
        }
    }
}

/// The first live entry is in the queue.
pub proof fn lemma_next_live_in<T>(queue: Seq<QueueEntry<T>>, b: BooksView<T>, now: Instant)
    ensures
        next_live(queue, b, now) matches Some(entry) ==> !b.stale(entry, now) && exists|p: int|
            0 <= p < queue.len() && #[trigger] queue[p] == entry,
    decreases queue.len(),
{
    if queue.len() > 0 && b.stale(queue[0], now) {
        let rest = queue.drop_first();
        lemma_next_live_in(rest, b, now);
        if let Some(entry) = next_live(rest, b, now) {
            let p = choose|p: int| 0 <= p < rest.len() && #[trigger] rest[p] == entry;
            assert(queue[p + 1] == entry);
        }
    } else if queue.len() > 0 {
        assert(queue[0] == queue[0]);
    }
}

/// What a dequeue does to a shard does not depend on what the books have lost of
/// other shards.
proof fn lemma_shard_round_same<T>(
    shard: ShardView<T>,
    b: BooksView<T>,
    b1: BooksView<T>,
    after: ShardView<T>,
    found: Option<(u64, QueueEntry<T>)>,
    now: Instant,
    i: int,
    n: nat,
)
    requires
        b.inv(),
        b1.inv(),
        delivery::worn(b, b1),
        shard.inv(b1.home, i, n),
        shard_round(shard, b1, after, found, 0, now),
    ensures
        shard_round(shard, b, after, found, 0, now),
{
    assert forall|u: u64, m: int| shard.tenants.contains_key(u) && 0 <= m < LANES implies next_live(
        (#[trigger] shard.tenants[u].lanes[m]).queue,
        b1,
        now,
    ) == next_live(shard.tenants[u].lanes[m].queue, b, now) by {
        invariants::lemma_lane_of_shard(shard, b1.home, i, n, u, m);
        lemma_next_live_same(shard.tenants[u].lanes[m].queue, b, b1, now);
    }
    let last = match found {
        Some((_, entry)) => entry.task.priority.rank(),
        None => LANES as int,
    };
    assert forall|u: u64, m: int|
        shard.tenants.contains_key(u) && 0 <= m < last implies passed_over(
        shard.tenants[u].lanes[m],
        #[trigger] after.tenants[u].lanes[m],
        shard.tenants[u].quantum,
        b,
        now,
    ) by {
        let _ = shard.tenants[u].lanes[m];
    }
    if let Some((t, entry)) = found {
        let _ = shard.tenants[t].lanes[last];
    }
}

/// A sweep of up to `turns` turns, each of another shard: it takes from the first
/// shard in turn order in which some tenant can pay, and passes over those before
/// it. Gives back the position of that shard, or the number of turns.
pub proof fn lemma_sweep_round<T>(s: StateView<T>, turns: nat, now: Instant) -> (p: int)
    requires
        s.inv(),
        turns <= s.ready.len(),
    ensures
        ({
            let (after, found) = s.sweep(turns, now);
            &&& 0 <= p <= turns
            &&& found is Some <==> p < turns
            &&& after.shards.len() == s.shards.len()
            &&& forall|q: int|
                0 <= q < p ==> shard_round(
                    s.shards[(#[trigger] s.ready[q]) as int],
                    s.books,
                    after.shards[s.ready[q] as int],
                    None,
                    0,
                    now,
                )
            &&& found matches Some((t, entry)) ==> s.ready[p] == s.shard_index(t) && shard_round(
                s.shards[s.shard_index(t)],
                s.books,
                after.shards[s.shard_index(t)],
                found,
                0,
                now,
            )
            &&& forall|j: int|
                0 <= j < s.shards.len() && (forall|q: int|
                    0 <= q < turns ==> (#[trigger] s.ready[q]) != j) ==> (#[trigger] after.shards[j])
                    == s.shards[j]
        }),
    decreases turns,
{
    if turns == 0 || s.ready.len() == 0 {
        0
    } else {
        let i = s.ready[0] as int;
        let n = s.shards.len();
        lemma_shard_round(s.shards[i], s.books, 0, now, i, n);
        delivery::lemma_dequeue_from_outcome(s.shards[i], s.books, 0, now, i, n);
        invariants::lemma_shard_turn(s, now);
        let (s1, found1) = s.shard_turn(now);
        if let Some((t, entry)) = found1 {
            assert(s.shards[i].tenants.contains_key(t));
            assert(s.shard_index(t) == i);
            0
        } else {
            let ready1 = s1.ready;
            assert(forall|q: int|
                0 <= q < s.ready.len() - 1 ==> #[trigger] ready1[q] == s.ready[q + 1]);
            let p1 = lemma_sweep_round(s1, (turns - 1) as nat, now);
            let p = p1 + 1;
            let (after, found) = s1.sweep((turns - 1) as nat, now);
            assert forall|q: int| 1 <= q < s.ready.len() implies {
                &&& s1.shards[(#[trigger] s.ready[q]) as int] == s.shards[s.ready[q] as int]
                &&& s.ready[q] != i
                &&& ready1[q - 1] == s.ready[q]
            } by {
                assert(s.ready[q] != s.ready[0]);
            }
            assert(forall|q: int| 0 <= q < turns - 1 ==> #[trigger] ready1[q] != i);
            assert(after.shards[i] == s1.shards[i]);
            assert forall|q: int| 0 <= q < p implies shard_round(
                s.shards[(#[trigger] s.ready[q]) as int],
                s.books,
                after.shards[s.ready[q] as int],
                None,
                0,
                now,
            ) by {
                if q > 0 {
                    let j = ready1[q - 1] as int;
                    assert(shard_round(s1.shards[j], s1.books, after.shards[j], None, 0, now));
                    assert(s1.shards[j].inv(s1.books.home, j, n));
                    lemma_shard_round_same(
                        s.shards[j],
                        s.books,
                        s1.books,
                        after.shards[j],
                        None,
                        now,
                        j,
                        n,
                    );
                }
            }
            if let Some((t, entry)) = found {
                let j = ready1[p1] as int;
                assert(s.ready[p1 + 1] == j);
                assert(s1.shards[j].inv(s1.books.home, j, n));
                lemma_shard_round_same(
                    s.shards[j],
                    s.books,
                    s1.books,
                    after.shards[j],
                    found,
                    now,
                    j,
                    n,
                );
            }
            assert forall|j: int|
                0 <= j < s.shards.len() && (forall|q: int|
                    0 <= q < turns ==> (#[trigger] s.ready[q]) != j) implies (
            #[trigger] after.shards[j]) == s.shards[j] by {
                assert(s.ready[0] != j);
                assert forall|q: int| 0 <= q < turns - 1 implies (#[trigger] ready1[q]) != j by {
                    assert(s.ready[q + 1] != j);
                }
            }
            p
        }
    }
}

/// What an attempt does to a lane: nothing; or its tenant has a turn without being served;
/// or it is the lane of the task that is handed out.
pub open spec fn handled<T>(
    found: Option<(u64, QueueEntry<T>)>,
    u: u64,
    m: int,
    lane: LaneView<T>,
    after: LaneView<T>,
    quantum: int,
    b: BooksView<T>,
    now: Instant,
) -> bool {
    ||| after == lane
    ||| passed_over(lane, after, quantum, b, now)
    ||| found matches Some((t, entry)) && t == u && entry.task.priority.rank() == m
}

/// What a dequeue from a shard does to a lane.
proof fn lemma_shard_handles<T>(
    shard: ShardView<T>,
    b: BooksView<T>,
    l: int,
    now: Instant,
    i: int,
    n: nat,
    u: u64,
    m: int,
)
    requires
        shard.inv(b.home, i, n),
        b.inv(),
        0 <= l <= LANES,
        shard.tenants.contains_key(u),
        0 <= m < LANES,
    ensures
        ({
            let (after, b1, found) = shard.dequeue_from(b, l, now);
            handled(
                found,
                u,
                m,
                shard.tenants[u].lanes[m],
                after.tenants[u].lanes[m],
                shard.tenants[u].quantum,
                b,
                now,
            )
        }),
    decreases LANES - l,
{
    if l < LANES {
        let ring = shard.rings[l];
        let turns = ring.len();
        let p = lemma_round(shard, b, l, turns, now, i, n);
        invariants::lemma_pass(shard, b, l, turns, now, i, n);
        delivery::lemma_pass_outcome(shard, b, l, turns, now, i, n);
        let (s1, b1, found1) = shard.pass(b, l, turns, now);
        let lane = shard.tenants[u].lanes[m];
        let lane1 = s1.tenants[u].lanes[m];
        let quantum = shard.tenants[u].quantum;
        if let Some((t, entry)) = found1 {
            assert(entry.task.priority.rank() == l) by {
                assert(shard.tenants.contains_key(shard.rings[l][p]));
                invariants::lemma_lane_of_shard(shard, b.home, i, n, t, l);
                lemma_next_live_in(shard.tenants[t].lanes[l].queue, b, now);
            }
        }
        assert(handled(found1, u, m, lane, lane1, quantum, b, now)) by {
            if m == l {
                if ring.contains(u) {
                    let q = choose|q: int| 0 <= q < ring.len() && ring[q] == u;
                    assert(ring[q] == u);
                } else {
                    assert forall|q: int| 0 <= q < turns implies #[trigger] ring[q] != u by {
                        assert(ring.contains(ring[q]));
                    }
                }
            }
        }
        if found1 is None {
            lemma_shard_round(s1, b1, l + 1, now, i, n);
            let (s2, b2, found) = s1.dequeue_from(b1, l + 1, now);
            assert(s1.tenants.contains_key(u));
            let lane2 = s2.tenants[u].lanes[m];
            if m <= l {
                assert(lane2 == lane1);
            } else {
                lemma_shard_handles(s1, b1, l + 1, now, i, n, u, m);
                assert(lane1 == lane);
                assert(s1.tenants[u].quantum == quantum);
                invariants::lemma_lane_of_shard(s1, b1.home, i, n, u, m);
                lemma_next_live_same(lane1.queue, b, b1, now);
            }
        }
    }
}

/// What a sweep does to a lane.
pub proof fn lemma_sweep_handles<T>(s: StateView<T>, turns: nat, now: Instant, u: u64, m: int)
    requires
        s.inv(),
        turns <= s.ready.len(),
        s.knows(u),
        0 <= m < LANES,
    ensures
        ({
            let (after, found) = s.sweep(turns, now);
            handled(
                found,
                u,
                m,
                s.tenant(u).lanes[m],
                after.tenant(u).lanes[m],
                s.tenant(u).quantum,
                s.books,
                now,
            )
        }),
    decreases turns,
{
    if turns > 0 && s.ready.len() > 0 {
        let i = s.ready[0] as int;
        let n = s.shards.len();
        let j = s.shard_index(u);
        invariants::lemma_shard_index(s, u);
        delivery::lemma_dequeue_from_outcome(s.shards[i], s.books, 0, now, i, n);
        invariants::lemma_shard_turn(s, now);
        let (s1, found1) = s.shard_turn(now);
        if j == i {
            lemma_shard_handles(s.shards[i], s.books, 0, now, i, n, u, m);
        }
        if found1 is None {
            let ready1 = s1.ready;
            assert(forall|q: int|
                0 <= q < s.ready.len() - 1 ==> #[trigger] ready1[q] == s.ready[q + 1]);
            let (after, found) = s1.sweep((turns - 1) as nat, now);
            if j == i {
                let p1 = lemma_sweep_round(s1, (turns - 1) as nat, now);
                assert forall|q: int| 0 <= q < turns - 1 implies (#[trigger] ready1[q]) != i by {
                    assert(s.ready[q + 1] != s.ready[0]);
                }
                assert(after.shards[i] == s1.shards[i]);
            } else {
                assert(s1.shards[j] == s.shards[j]);
                lemma_sweep_handles(s1, (turns - 1) as nat, now, u, m);
                let p1 = lemma_sweep_round(s1, (turns - 1) as nat, now);
                invariants::lemma_lane_of_shard(s1.shards[j], s1.books.home, j, n, u, m);
                lemma_next_live_same(s.tenant(u).lanes[m].queue, s.books, s1.books, now);
            }
        }
    }
}

/// A shard without waiting tenants is passed over without a turn.
proof fn lemma_idle_shard<T>(shard: ShardView<T>, b: BooksView<T>, now: Instant, i: int, n: nat)
    requires
        shard.inv(b.home, i, n),
        !shard.has_work(),
    ensures
        shard_round(shard, b, shard, None, 0, now),
{
    assert forall|u: u64, m: int| shard.tenants.contains_key(u) && 0 <= m < LANES implies passed_over(
        shard.tenants[u].lanes[m],
        #[trigger] shard.tenants[u].lanes[m],
        shard.tenants[u].quantum,
        b,
        now,
    ) by {
        invariants::lemma_lane_of_shard(shard, b.home, i, n, u, m);
        assert(shard.rings[m].len() == 0);
        lemma_idle_lane(shard.tenants[u].lanes[m], shard.tenants[u].quantum, b, now);
    }
}

/// An attempt that hands out nothing passes over every lane of every tenant.
pub proof fn lemma_empty_attempt<T>(s: StateView<T>, now: Instant)
    requires
        s.inv(),
        s.shutdown != model::ShutdownState::Immediate,
        s.dequeue(now).1 is None,
    ensures
        forall|j: int|
            0 <= j < s.shards.len() ==> shard_round(
                s.shards[j],
                s.books,
                #[trigger] s.dequeue(now).0.shards[j],
                None,
                0,
                now,
            ),
{
    let p = lemma_sweep_round(s, s.ready.len(), now);
    let after = s.dequeue(now).0;
    assert forall|j: int| 0 <= j < s.shards.len() implies shard_round(
        s.shards[j],
        s.books,
        #[trigger] after.shards[j],
        None,
        0,
        now,
    ) by {
        if s.shard_active[j] {
            assert(s.ready.contains(j as usize));
            let q = choose|q: int| 0 <= q < s.ready.len() && s.ready[q] == j as usize;
            assert(s.ready[q] == j);
        } else {
            assert(!s.ready.contains(j as usize));
            assert(!s.shards[j].has_work());
            assert forall|q: int| 0 <= q < s.ready.len() implies (#[trigger] s.ready[q]) != j by {
                assert(s.ready.contains(s.ready[q]));
            }
            lemma_idle_shard(s.shards[j], s.books, now, j, s.shards.len());
        }
    }
}

/// An attempt that hands out a task does to the task's shard what a dequeue from it
/// does.
pub proof fn lemma_full_attempt<T>(s: StateView<T>, now: Instant)
    requires
        s.inv(),
        s.dequeue(now).1 is Some,
    ensures
        s.dequeue(now).1 matches Some((t, entry)) ==> 0 <= s.shard_index(t) < s.shards.len()
            && shard_round(
            s.shards[s.shard_index(t)],
            s.books,
            s.dequeue(now).0.shards[s.shard_index(t)],
            s.dequeue(now).1,
            0,
            now,
        ),
{
    let p = lemma_sweep_round(s, s.ready.len(), now);
    if let Some((t, entry)) = s.dequeue(now).1 {
        invariants::lemma_shard_index(s, t);
    }
}

/// What an attempt does for a tenant that waits at `place` in the ring of priority `m`
/// of a shard, if the shard has its turn: the tenant is served; or it has a turn that
/// it cannot pay for, and earns its quantum; or it moves up in the ring; or the turn
/// goes to a more urgent task.
spec fn nearer<T>(
    shard: ShardView<T>,
    after: ShardView<T>,
    found: Option<(u64, QueueEntry<T>)>,
    u: u64,
    m: int,
    place: int,
) -> bool {
    let lane = shard.tenants[u].lanes[m];
    let lane1 = after.tenants[u].lanes[m];
    ||| found matches Some((t, entry)) && t == u && entry.task.priority.rank() == m
    ||| lane1.deficit == model::budget(lane.deficit + shard.tenants[u].quantum)
        && after.rings[m].contains(u)
    ||| lane1 == lane && exists|p1: int|
        0 <= p1 < place && p1 < after.rings[m].len() && #[trigger] after.rings[m][p1] == u
    ||| (found matches Some((t, entry)) && entry.task.priority.rank() < m) && lane1 == lane && place
        < after.rings[m].len() && after.rings[m][place] == u
}

/// What a dequeue from a shard does for a tenant that waits there.
proof fn lemma_nearer<T>(
    shard: ShardView<T>,
    b: BooksView<T>,
    l: int,
    now: Instant,
    i: int,
    n: nat,
    u: u64,
    m: int,
    place: int,
)
    requires
        shard.inv(b.home, i, n),
        b.inv(),
        0 <= l <= m < LANES,
        0 <= place < shard.rings[m].len(),
        shard.rings[m][place] == u,
        next_live(shard.tenants[u].lanes[m].queue, b, now) is Some,
    ensures
        nearer(
            shard,
            shard.dequeue_from(b, l, now).0,
            shard.dequeue_from(b, l, now).2,
            u,
            m,
            place,
        ),
        shard.dequeue_from(b, l, now).0.tenants[u].quantum == shard.tenants[u].quantum,
    decreases LANES - l,
{
    assert(shard.tenants.contains_key(shard.rings[m][place]));
    lemma_shard_round(shard, b, l, now, i, n);
    invariants::lemma_dequeue_from(shard, b, l, now, i, n);
    let (after, b2, found) = shard.dequeue_from(b, l, now);
    let last = match found {
        Some((_, entry)) => entry.task.priority.rank(),
        None => LANES as int,
    };
    if m < last {
        assert(passed_over(
            shard.tenants[u].lanes[m],
            after.tenants[u].lanes[m],
            shard.tenants[u].quantum,
            b,
            now,
        ));
        invariants::lemma_lane_of_shard(after, b2.home, i, n, u, m);
    } else {
        let turns = shard.rings[l].len();
        let p = lemma_round(shard, b, l, turns, now, i, n);
        let (s1, b1, found1) = shard.pass(b, l, turns, now);
        if found1 is Some {
            assert(l == last) by {
                let (t, entry) = found1->0;
                assert(shard.tenants.contains_key(shard.rings[l][p]));
                invariants::lemma_lane_of_shard(shard, b.home, i, n, t, l);
                lemma_next_live_in(shard.tenants[t].lanes[l].queue, b, now);
            }
            if m == l {
                if place < p {
                    let _ = shard.rings[l][place];
                    invariants::lemma_lane_of_shard(after, b2.home, i, n, u, m);
                } else if place > p {
                    assert(after.rings[m][place - p - 1] == u);
                }
            } else {
                assert(after.rings[m] == shard.rings[m]);
                assert(after.tenants[u].lanes[m] == shard.tenants[u].lanes[m]);
            }
        } else {
            invariants::lemma_pass(shard, b, l, turns, now, i, n);
            assert(l < last) by {
                lemma_shard_round(s1, b1, l + 1, now, i, n);
            }
            delivery::lemma_pass_outcome(shard, b, l, turns, now, i, n);
            assert(s1.rings[m] == shard.rings[m]);
            assert(s1.tenants[u].lanes[m] == shard.tenants[u].lanes[m]);
            invariants::lemma_lane_of_shard(s1, b1.home, i, n, u, m);
            lemma_next_live_same(s1.tenants[u].lanes[m].queue, b, b1, now);
            lemma_nearer(s1, b1, l + 1, now, i, n, u, m, place);
        }
    }
}

/// The tenant waits at `place` in the ring of priority `m` of its shard, and the shard
/// waits at `turn` for its turn.
pub open spec fn waits_at<T>(s: StateView<T>, u: u64, m: int, place: int, turn: int) -> bool {
    &&& s.knows(u)
    &&& 0 <= m < LANES
    &&& 0 <= place < s.shards[s.shard_index(u)].rings[m].len()
    &&& s.shards[s.shard_index(u)].rings[m][place] == u
    &&& 0 <= turn < s.ready.len()
    &&& s.ready[turn] == s.shard_index(u)
}

/// What an attempt does for a tenant that waits with a live task: the tenant is served;
/// or it has a turn that it cannot pay for, and earns its quantum; or it moves up in
/// the ring; or its shard moves up; or the turn goes to a more urgent task of its shard.
pub open spec fn closer<T>(
    s: StateView<T>,
    after: StateView<T>,
    found: Option<(u64, QueueEntry<T>)>,
    u: u64,
    m: int,
    place: int,
    turn: int,
) -> bool {
    let lane = s.tenant(u).lanes[m];
    let lane1 = after.tenant(u).lanes[m];
    ||| found matches Some((t, entry)) && t == u && entry.task.priority.rank() == m
    ||| lane1.deficit == model::budget(lane.deficit + s.tenant(u).quantum) && exists|
        p1: int,
        r1: int,
    | #[trigger] waits_at(after, u, m, p1, r1)
    ||| lane1 == lane && exists|p1: int, r1: int|
        p1 < place && #[trigger] waits_at(after, u, m, p1, r1)
    ||| lane1 == lane && exists|r1: int| r1 < turn && #[trigger] waits_at(after, u, m, place, r1)
    ||| (found matches Some((t, entry)) && entry.task.priority.rank() < m && s.shard_index(t)
        == s.shard_index(u)) && lane1 == lane && exists|r1: int| #[trigger]
        waits_at(after, u, m, place, r1)
}

/// A tenant that is in a ring waits somewhere.
pub proof fn lemma_waits<T>(s: StateView<T>, u: u64, m: int, place: int) -> (turn: int)
    requires
        s.inv(),
        s.knows(u),
        0 <= m < LANES,
        0 <= place < s.shards[s.shard_index(u)].rings[m].len(),
        s.shards[s.shard_index(u)].rings[m][place] == u,
    ensures
        waits_at(s, u, m, place, turn),
{
    let i = s.shard_index(u);
    invariants::lemma_shard_index(s, u);
    assert(s.shards[i].has_work());
    assert(s.shard_active[i]);
    assert(s.ready.contains(i as usize));
    let turn = choose|turn: int| 0 <= turn < s.ready.len() && s.ready[turn] == i as usize;
    turn
}

/// What a shard does for a tenant when it has its turn is what the attempt does for it.
proof fn lemma_nearer_closer<T>(
    s: StateView<T>,
    after: StateView<T>,
    found1: Option<(u64, QueueEntry<T>)>,
    found: Option<(u64, QueueEntry<T>)>,
    u: u64,
    m: int,
    place: int,
    turn: int,
)
    requires
        s.inv(),
        after.inv(),
        waits_at(s, u, m, place, turn),
        after.knows(u),
        after.shards.len() == s.shards.len(),
        nearer(s.shards[s.shard_index(u)], after.shards[s.shard_index(u)], found1, u, m, place),
        found1 is Some ==> found == found1,
        found1 matches Some((t, entry)) ==> s.shard_index(t) == s.shard_index(u),
    ensures
        closer(s, after, found, u, m, place, turn),
{
    let i = s.shard_index(u);
    let ring1 = after.shards[i].rings[m];
    let lane = s.tenant(u).lanes[m];
    let lane1 = after.tenant(u).lanes[m];
    if found1 matches Some((t, entry)) && t == u && entry.task.priority.rank() == m {
    } else if lane1.deficit == model::budget(lane.deficit + s.tenant(u).quantum)
        && ring1.contains(u) {
        let p1 = choose|p1: int| 0 <= p1 < ring1.len() && ring1[p1] == u;
        let r1 = lemma_waits(after, u, m, p1);
    } else if lane1 == lane && exists|p1: int|
        0 <= p1 < place && p1 < ring1.len() && #[trigger] ring1[p1] == u {
        let p1 = choose|p1: int|
            0 <= p1 < place && p1 < ring1.len() && #[trigger] ring1[p1] == u;
        let r1 = lemma_waits(after, u, m, p1);
    } else {
        let r1 = lemma_waits(after, u, m, place);
    }
}

/// What a sweep does for a tenant that waits with a live task in one of the shards that
/// have a turn.
proof fn lemma_closer<T>(
    s: StateView<T>,
    turns: nat,
    now: Instant,
    u: u64,
    m: int,
    place: int,
    turn: int,
)
    requires
        s.inv(),
        turns <= s.ready.len(),
        waits_at(s, u, m, place, turn),
        turn < turns,
        next_live(s.tenant(u).lanes[m].queue, s.books, now) is Some,
    ensures
        closer(s, s.sweep(turns, now).0, s.sweep(turns, now).1, u, m, place, turn),
    decreases turns,
{
    let i = s.ready[0] as int;
    let iu = s.shard_index(u);
    let n = s.shards.len();
    invariants::lemma_shard_index(s, u);
    invariants::lemma_sweep(s, turns, now);
    invariants::lemma_shard_turn(s, now);
    lemma_shard_round(s.shards[i], s.books, 0, now, i, n);
    delivery::lemma_dequeue_from_outcome(s.shards[i], s.books, 0, now, i, n);
    let (s1, found1) = s.shard_turn(now);
    let (after, found) = s.sweep(turns, now);
    if found1 is Some {
        let (t, entry) = found1->0;
        assert(s.shards[i].tenants.contains_key(t));
        assert(s.shard_index(t) == i);
    }
    if turn == 0 {
        lemma_nearer(s.shards[i], s.books, 0, now, i, n, u, m, place);
        if found1 is None {
            let p1 = lemma_sweep_round(s1, (turns - 1) as nat, now);
            assert forall|q: int| 0 <= q < turns - 1 implies (#[trigger] s1.ready[q]) != i by {
                assert(s1.ready[q] == s.ready[q + 1]);
                assert(s.ready[q + 1] != s.ready[0]);
            }
            assert(after.shards[i] == s1.shards[i]);
        }
        lemma_nearer_closer(s, after, found1, found, u, m, place, turn);
    } else {
        assert(s.ready[turn] != s.ready[0]);
        assert(s1.shards[iu] == s.shards[iu]);
        assert(s1.ready[turn - 1] == s.ready[turn]);
        assert(waits_at(s1, u, m, place, turn - 1));
        if found1 is None {
            invariants::lemma_lane_of_shard(s1.shards[iu], s1.books.home, iu, n, u, m);
            lemma_next_live_same(s.tenant(u).lanes[m].queue, s.books, s1.books, now);
            lemma_closer(s1, (turns - 1) as nat, now, u, m, place, turn - 1);
        }
    }
}

/// What an attempt does for a tenant that waits with a live task.
pub proof fn lemma_attempt_brings_closer<T>(
    s: StateView<T>,
    now: Instant,
    u: u64,
    m: int,
    place: int,
    turn: int,
)
    requires
        s.inv(),
        s.shutdown != model::ShutdownState::Immediate,
        waits_at(s, u, m, place, turn),
        next_live(s.tenant(u).lanes[m].queue, s.books, now) is Some,
    ensures
        closer(s, s.dequeue(now).0, s.dequeue(now).1, u, m, place, turn),
{
    lemma_closer(s, s.ready.len(), now, u, m, place, turn);
}

/// The tenant waits where it waited, with the budget that it had.
pub open spec fn undisturbed<T>(
    s: StateView<T>,
    after: StateView<T>,
    u: u64,
    m: int,
    place: int,
    turn: int,
) -> bool {
    &&& waits_at(after, u, m, place, turn)
    &&& after.tenant(u).lanes[m].deficit == s.tenant(u).lanes[m].deficit
}

/// Making a tenant known and tidying it disturbs no one who waits.
pub proof fn lemma_prepared_undisturbed<T>(
    s: StateView<T>,
    limits: Limits,
    t: u64,
    quantum: int,
    now: Instant,
    u: u64,
    m: int,
    place: int,
    turn: int,
)
    requires
        s.inv(),
        1 <= quantum <= i64::MAX,
        waits_at(s, u, m, place, turn),
    ensures
        undisturbed(s, s.prepared(limits, t, quantum, now), u, m, place, turn),
{
    let i = s.shard_index(t);
    let n = s.shards.len();
    invariants::lemma_shard_index(s, t);
    invariants::lemma_shard_index(s, u);
    invariants::lemma_tenant_or_fresh(s.shards[i], s.books.home, i, n, t, quantum);
    let before = s.shards[i].tenant_or_fresh(t, quantum);
    invariants::lemma_tidied(before, s.books, limits, t, now);
    let after = s.prepared(limits, t, quantum, now);
    let _ = before.lanes[m];
    let _ = after.tenant(t).lanes[m];
}

/// Accepting a task disturbs no one who waits.
pub proof fn lemma_accepted_undisturbed<T>(
    s: StateView<T>,
    t: u64,
    task: Task<T>,
    own_slot: bool,
    u: u64,
    m: int,
    place: int,
    turn: int,
)
    requires
        s.shards.len() >= 1,
        s.knows(t),
        s.tenant(t).lanes.len() == LANES,
        s.shards[s.shard_index(t)].rings.len() == LANES,
        waits_at(s, u, m, place, turn),
    ensures
        undisturbed(s, s.accepted(t, task, own_slot), u, m, place, turn),
{
    invariants::lemma_shard_index(s, t);
    invariants::lemma_shard_index(s, u);
}

/// Giving up a task disturbs no one who waits.
pub proof fn lemma_victim_undisturbed<T>(
    s: StateView<T>,
    t: u64,
    l: int,
    p: int,
    u: u64,
    m: int,
    place: int,
    turn: int,
)
    requires
        s.inv(),
        s.knows(t),
        0 <= l < LANES,
        waits_at(s, u, m, place, turn),
    ensures
        undisturbed(s, s.without_victim(t, l, p), u, m, place, turn),
{
    let i = s.shard_index(t);
    invariants::lemma_shard_index(s, t);
    invariants::lemma_shard_index(s, u);
    assert(s.shards[i].tenant_inv(t, s.books.home));
}

/// Another quantum disturbs no one who waits.
pub proof fn lemma_quantum_undisturbed<T>(
    s: StateView<T>,
    t: u64,
    quantum: int,
    u: u64,
    m: int,
    place: int,
    turn: int,
)
    requires
        s.inv(),
        waits_at(s, u, m, place, turn),
    ensures
        undisturbed(s, s.with_quantum(t, quantum), u, m, place, turn),
{
    invariants::lemma_shard_index(s, t);
    invariants::lemma_shard_index(s, u);
}

/// Turns that a tenant must have without being served until its budget covers `cost`.
pub open spec fn turns_to_earn(deficit: int, quantum: int, cost: int) -> int {
    if deficit >= cost {
        0
    } else {
        (cost - deficit + quantum - 1) / quantum
    }
}

/// A turn without being served brings the budget a quantum closer.
pub proof fn lemma_earning(deficit: int, quantum: int, cost: int)
    requires
        0 <= deficit < cost <= i64::MAX,
        1 <= quantum,
    ensures
        turns_to_earn(deficit, quantum, cost) >= 1,
        0 <= turns_to_earn(model::budget(deficit + quantum), quantum, cost) <= turns_to_earn(
            deficit,
            quantum,
            cost,
        ) - 1,
{
    let short = cost - deficit;
    assert((short + quantum - 1) / quantum >= 1) by (nonlinear_arith)
        requires
            short >= 1,
            quantum >= 1,
    ;
    if deficit + quantum < cost {
        assert((short - quantum + quantum - 1) / quantum == (short + quantum - 1) / quantum - 1)
            by (nonlinear_arith)
            requires
                quantum >= 1,
        ;
        assert((short - 1) / quantum >= 0) by (nonlinear_arith)
            requires
                short >= 1,
                quantum >= 1,
        ;
    }
}

/// The state after `n` attempts to dequeue at `now`.
pub open spec fn after_attempts<T>(s: StateView<T>, n: nat, now: Instant) -> StateView<T>
    decreases n,
{
    if n == 0 {
        s
    } else {
        after_attempts(s.dequeue(now).0, (n - 1) as nat, now)
    }
}

/// One attempt more.
pub proof fn lemma_one_attempt_more<T>(s: StateView<T>, n: nat, now: Instant)
    ensures
        after_attempts(s, n + 1, now) == after_attempts(s, n, now).dequeue(now).0,
    decreases n,
{
    reveal_with_fuel(after_attempts, 2);
    if n > 0 {
        lemma_one_attempt_more(s.dequeue(now).0, (n - 1) as nat, now);
    }
}

/// So many attempts in a row come back without a task.
pub open spec fn all_fail<T>(s: StateView<T>, n: nat, now: Instant) -> bool {
    forall|k: nat| k < n ==> (#[trigger] after_attempts(s, k, now)).dequeue(now).1 is None
}

/// The shard and the books after `n` turns in the ring of priority `l` at `now`.
pub open spec fn after_turns<T>(
    shard: ShardView<T>,
    b: BooksView<T>,
    l: int,
    n: nat,
    now: Instant,
) -> (ShardView<T>, BooksView<T>)
    decreases n,
{
    if n == 0 {
        (shard, b)
    } else {
        let (shard1, b1, found) = shard.turn(b, l, now);
        after_turns(shard1, b1, l, (n - 1) as nat, now)
    }
}

/// A tenant in a ring with a live entry is served within a bounded number of turns:
/// it is at the front after as many turns as tenants are before it, and comes back
/// there once in a round until it has earned the cost. Gives back the number of
/// turns before its own.
pub proof fn lemma_served_in_time<T>(
    shard: ShardView<T>,
    b: BooksView<T>,
    l: int,
    position: int,
    entry: QueueEntry<T>,
    now: Instant,
    i: int,
    n: nat,
) -> (turns: nat)
    requires
        shard.inv(b.home, i, n),
        b.inv(),
        0 <= l < LANES,
        0 <= position < shard.rings[l].len(),
        ({
            let t = shard.rings[l][position];
            next_live(shard.tenants[t].lanes[l].queue, b, now) == Some(entry)
        }),
    ensures
        ({
            let t = shard.rings[l][position];
            let need = turns_to_earn(
                shard.tenants[t].lanes[l].deficit,
                shard.tenants[t].quantum,
                model::budget(entry.task.cost as int),
            );
            let (shard1, b1) = after_turns(shard, b, l, turns, now);
            &&& turns <= need * shard.rings[l].len() + position
            &&& shard1.turn(b1, l, now).2 == Some((t, entry))
        }),
    decreases
            turns_to_earn(
                shard.tenants[shard.rings[l][position]].lanes[l].deficit,
                shard.tenants[shard.rings[l][position]].quantum,
                model::budget(entry.task.cost as int),
            ),
            position,
{
    let ring = shard.rings[l];
    let t = ring[position];
    let len = ring.len() as int;
    assert(shard.tenants.contains_key(shard.rings[l][position]));
    assert(shard.tenant_inv(t, b.home));
    invariants::lemma_lane_of_shard(shard, b.home, i, n, t, l);
    let lane = shard.tenants[t].lanes[l];
    let quantum = shard.tenants[t].quantum;
    let cost = model::budget(entry.task.cost as int);
    let need = turns_to_earn(lane.deficit, quantum, cost);
    lemma_turn_serves(shard, b, l, now, i, n);
    invariants::lemma_turn(shard, b, l, now, i, n);
    let (s1, b1, found) = shard.turn(b, l, now);
    let rest = ring.drop_first();
    if position == 0 {
        if found is Some {
            assert(need == 0);
            0
        } else {
            lemma_earning(lane.deficit, quantum, cost);
            let lane1 = s1.tenants[t].lanes[l];
            let need1 = turns_to_earn(lane1.deficit, quantum, cost);
            assert(s1.rings[l] == rest.push(t));
            delivery::lemma_turn_outcome(shard, b, l, now, i, n);
            lemma_next_live_in(lane.queue, b, now);
            assert(next_live(lane1.queue, b1, now) == Some(entry));
            let turns1 = lemma_served_in_time(s1, b1, l, len - 1, entry, now, i, n);
            assert(need1 * len + (len - 1) + 1 <= need * len) by (nonlinear_arith)
                requires
                    need1 <= need - 1,
                    len >= 1,
            ;
            (turns1 + 1) as nat
        }
    } else {
        assert(ring[0] != ring[position]);
        lemma_turn_leaves(shard, b, l, now, i, n, t, l);
        let ring1 = s1.rings[l];
        assert(ring1[position - 1] == t);
        assert(s1.tenants[t] == shard.tenants[t]);
        let turns1 = lemma_served_in_time(s1, b1, l, position - 1, entry, now, i, n);
        let len1 = ring1.len() as int;
        assert(need >= 0) by {
            if lane.deficit < cost {
                lemma_earning(lane.deficit, quantum, cost);
            }
        }
        assert(need * len1 <= need * len) by (nonlinear_arith)
            requires
                need >= 0,
                len1 <= len,
        ;
        (turns1 + 1) as nat
    }
}

/// What an attempt that hands out nothing does for a live entry: it waits on, and is a
/// turn closer to being paid for.
pub proof fn lemma_empty_earns<T>(
    s: StateView<T>,
    t: u64,
    l: int,
    entry: QueueEntry<T>,
    now: Instant,
)
    requires
        s.inv(),
        s.shutdown != model::ShutdownState::Immediate,
        s.knows(t),
        0 <= l < LANES,
        next_live(s.tenant(t).lanes[l].queue, s.books, now) == Some(entry),
        s.dequeue(now).1 is None,
    ensures
        ({
            let s1 = s.dequeue(now).0;
            let cost = model::budget(entry.task.cost as int);
            &&& s1.knows(t)
            &&& next_live(s1.tenant(t).lanes[l].queue, s1.books, now) == Some(entry)
            &&& 0 <= turns_to_earn(
                s1.tenant(t).lanes[l].deficit,
                s1.tenant(t).quantum,
                cost,
            ) < turns_to_earn(s.tenant(t).lanes[l].deficit, s.tenant(t).quantum, cost)
        }),
{
    let i = s.shard_index(t);
    let n = s.shards.len();
    invariants::lemma_shard_index(s, t);
    let shard = s.shards[i];
    assert(shard.inv(s.books.home, i, n));
    assert(shard.tenants.contains_key(t));
    assert(shard.tenant_inv(t, s.books.home));
    invariants::lemma_lane_of_shard(shard, s.books.home, i, n, t, l);
    let lane = s.tenant(t).lanes[l];
    let quantum = s.tenant(t).quantum;
    let cost = model::budget(entry.task.cost as int);
    lemma_empty_attempt(s, now);
    invariants::lemma_dequeue(s, now);
    delivery::lemma_dequeue_outcome(s, now);
    let s1 = s.dequeue(now).0;
    let after = s1.shards[i];
    let lane1 = after.tenants[t].lanes[l];
    assert(passed_over(lane, lane1, quantum, s.books, now));
    lemma_earning(lane.deficit, quantum, cost);
    lemma_next_live_in(lane.queue, s.books, now);
    assert(next_live(lane1.queue, s1.books, now) == Some(entry));
}

/// After an attempt that hands out nothing, what is pending is live: some lane has a live
/// entry. Gives back its tenant and priority.
pub proof fn lemma_pending_is_live<T>(s: StateView<T>, now: Instant) -> (at: (u64, int))
    requires
        s.inv(),
        s.shutdown != model::ShutdownState::Immediate,
        s.dequeue(now).1 is None,
        s.dequeue(now).0.books.stats.queue_len_estimate > 0,
    ensures
        ({
            let s1 = s.dequeue(now).0;
            &&& s1.knows(at.0)
            &&& 0 <= at.1 < LANES
            &&& next_live(s1.tenant(at.0).lanes[at.1].queue, s1.books, now) is Some
        }),
{
    lemma_empty_attempt(s, now);
    invariants::lemma_dequeue(s, now);
    delivery::lemma_dequeue_outcome(s, now);
    let s1 = s.dequeue(now).0;
    let n = s1.shards.len();
    let id = s1.books.pending.choose();
    assert(s1.books.pending.contains(id)) by {
        if s1.books.pending =~= Set::<u64>::empty() {
            assert(s1.books.pending.len() == 0);
        }
    }
    assert(s1.books.home.dom().contains(id));
    assert(s1.books.home.contains_key(id));
    let (t, l) = s1.books.home[id];
    let i = model::shard_of(t, n);
    invariants::lemma_shard_index(s1, t);
    invariants::lemma_shard_index(s, t);
    assert(s1.shards[i].inv(s1.books.home, i, n));
    assert(s1.shards[i].holds(t, l, id));
    let lane = s.shards[i].tenants[t].lanes[l];
    let lane1 = s1.shards[i].tenants[t].lanes[l];
    assert(passed_over(lane, lane1, s.shards[i].tenants[t].quantum, s.books, now));
    lemma_next_live_in(lane.queue, s.books, now);
    invariants::lemma_lane_of_shard(s1.shards[i], s1.books.home, i, n, t, l);
    lemma_next_live_same(lane1.queue, s.books, s1.books, now);
    (t, l)
}

/// While tasks are pending, attempts succeed before long: a lane with a live entry
/// earns its quantum in each attempt that hands out nothing. Gives back the number
/// of attempts before the one that hands out a task.
pub proof fn lemma_attempts_succeed<T>(
    s: StateView<T>,
    t: u64,
    l: int,
    entry: QueueEntry<T>,
    now: Instant,
) -> (attempts: nat)
    requires
        s.inv(),
        s.shutdown != model::ShutdownState::Immediate,
        s.knows(t),
        0 <= l < LANES,
        next_live(s.tenant(t).lanes[l].queue, s.books, now) == Some(entry),
    ensures
        attempts <= turns_to_earn(
            s.tenant(t).lanes[l].deficit,
            s.tenant(t).quantum,
            model::budget(entry.task.cost as int),
        ),
        after_attempts(s, attempts, now).dequeue(now).1 is Some,
    decreases
            turns_to_earn(
                s.tenant(t).lanes[l].deficit,
                s.tenant(t).quantum,
                model::budget(entry.task.cost as int),
            ),
{
    if s.dequeue(now).1 is Some {
        let deficit = s.tenant(t).lanes[l].deficit;
        let cost = model::budget(entry.task.cost as int);
        let i = s.shard_index(t);
        invariants::lemma_shard_index(s, t);
        assert(s.shards[i].tenant_inv(t, s.books.home));
        assert(s.shards[i].lane_inv(t, l, s.books.home));
        if deficit < cost {
            lemma_earning(deficit, s.tenant(t).quantum, cost);
        }
        0
    } else {
        lemma_empty_earns(s, t, l, entry, now);
        invariants::lemma_dequeue(s, now);
        delivery::lemma_dequeue_outcome(s, now);
        let more = lemma_attempts_succeed(s.dequeue(now).0, t, l, entry, now);
        (more + 1) as nat
    }
}

} // verus!
