//! What an attempt to dequeue takes out of the queues, and what it leaves.
use vstd::prelude::*;

use crate::invariants;
use crate::model;
use crate::model::{BooksView, QueueEntry, ShardView, StateView, LANES};
use crate::time::Instant;

verus! {

/// The queue has lost entries in front, all of them stale, and nothing else.
pub open spec fn trimmed<T>(
    queue: Seq<QueueEntry<T>>,
    after: Seq<QueueEntry<T>>,
    b: BooksView<T>,
    now: Instant,
) -> bool {
    exists|k: int| #[trigger] cut(queue, after, b, now, k)
}

/// The queue has lost its first `k` entries, all of them stale, and nothing else.
pub open spec fn cut<T>(
    queue: Seq<QueueEntry<T>>,
    after: Seq<QueueEntry<T>>,
    b: BooksView<T>,
    now: Instant,
    k: int,
) -> bool {
    &&& 0 <= k <= queue.len()
    &&& after == queue.skip(k)
    &&& forall|p: int| 0 <= p < k ==> b.stale(#[trigger] queue[p], now)
}

/// The books have lost numbers, and no number has come or come back. Waiting threads
/// are to be told if a live one is gone.
pub open spec fn worn<T>(b: BooksView<T>, after: BooksView<T>) -> bool {
    &&& after.pending.subset_of(b.pending)
    &&& after.cancelled.subset_of(b.cancelled)
    &&& after.last_id == b.last_id
    &&& b.wake ==> after.wake
    &&& after.pending != b.pending ==> after.wake
}

/// The entry at position `p` of the lane was handed out: it is live, and all before
/// it in the lane are stale. The lane has lost it and those before it.
pub open spec fn taken<T>(
    queue: Seq<QueueEntry<T>>,
    after: Seq<QueueEntry<T>>,
    b: BooksView<T>,
    entry: QueueEntry<T>,
    now: Instant,
    p: int,
) -> bool {
    &&& 0 <= p < queue.len()
    &&& queue[p] == entry
    &&& after == queue.skip(p + 1)
    &&& !b.stale(entry, now)
    &&& forall|q: int| 0 <= q < p ==> b.stale(#[trigger] queue[q], now)
}

/// In all lanes of the shard, but for the one of the given tenant and priority,
/// stale entries in front may be gone, and nothing else.
pub open spec fn trimmed_but<T>(
    shard: ShardView<T>,
    after: ShardView<T>,
    b: BooksView<T>,
    now: Instant,
    t: u64,
    l: int,
) -> bool {
    &&& after.tenants.dom() == shard.tenants.dom()
    &&& forall|u: u64, m: int|
        shard.tenants.contains_key(u) && 0 <= m < LANES && !(u == t && m == l) ==> trimmed(
            shard.tenants[u].lanes[m].queue,
            (#[trigger] after.tenants[u].lanes[m]).queue,
            b,
            now,
        )
}

/// In all lanes of the shard stale entries in front may be gone, and nothing else.
pub open spec fn trimmed_shard<T>(
    shard: ShardView<T>,
    after: ShardView<T>,
    b: BooksView<T>,
    now: Instant,
) -> bool {
    trimmed_but(shard, after, b, now, 0, -1)
}

/// The entry was handed out from the tenant's lane of its priority.
pub open spec fn handed_out<T>(
    shard: ShardView<T>,
    b: BooksView<T>,
    after: ShardView<T>,
    b1: BooksView<T>,
    t: u64,
    entry: QueueEntry<T>,
    now: Instant,
) -> bool {
    let l = entry.task.priority.rank();
    &&& shard.tenants.contains_key(t)
    &&& b.pending.contains(entry.id)
    &&& !b1.pending.contains(entry.id)
    &&& b.home.contains_key(entry.id)
    &&& b.home[entry.id] == (t, l)
    &&& exists|p: int| #[trigger]
        taken(
            shard.tenants[t].lanes[l].queue,
            after.tenants[t].lanes[l].queue,
            b,
            entry,
            now,
            p,
        )
    &&& trimmed_but(shard, after, b, now, t, l)
}

/// What comes of a dequeue from a shard.
pub open spec fn shard_outcome<T>(
    shard: ShardView<T>,
    b: BooksView<T>,
    after: ShardView<T>,
    b1: BooksView<T>,
    found: Option<(u64, QueueEntry<T>)>,
    now: Instant,
) -> bool {
    &&& worn(b, b1)
    &&& match found {
        Some((t, entry)) => handed_out(shard, b, after, b1, t, entry, now),
        None => trimmed_shard(shard, after, b, now),
    }
}

/// Stripping takes stale entries from the front.
pub proof fn lemma_strip_trims<T>(
    b: BooksView<T>,
    queue: Seq<QueueEntry<T>>,
    t: u64,
    l: int,
    now: Instant,
) -> (k: int)
    requires
        b.inv(),
        invariants::lane_ok(queue, t, l, b.home),
    ensures
        cut(queue, model::strip(b, queue, now).1, b, now, k),
        worn(b, model::strip(b, queue, now).0),
    decreases queue.len(),
{
    if queue.len() > 0 && b.stale(queue[0], now) {
        let b1 = b.discard(queue[0]);
        invariants::lemma_lane_remove(queue, 0, t, l, b.home);
        invariants::lemma_discard(b, queue[0]);
        assert(queue.remove(0) =~= queue.drop_first());
        let k = lemma_strip_trims(b1, queue.drop_first(), t, l, now);
        assert(queue.drop_first().skip(k) =~= queue.skip(k + 1));
        assert forall|p: int| 0 <= p < k + 1 implies b.stale(#[trigger] queue[p], now) by {
            if p > 0 {
                assert(b1.stale(queue.drop_first()[p - 1], now));
            }
        }
        k + 1
    } else {
        assert(queue.skip(0) =~= queue);
        0
    }
}

/// A queue that lost nothing was trimmed.
proof fn lemma_untouched<T>(queue: Seq<QueueEntry<T>>, b: BooksView<T>, now: Instant)
    ensures
        trimmed(queue, queue, b, now),
{
    assert(queue.skip(0) =~= queue);
    assert(cut(queue, queue, b, now, 0));
}

/// What comes of a turn.
pub proof fn lemma_turn_outcome<T>(
    shard: ShardView<T>,
    b: BooksView<T>,
    l: int,
    now: Instant,
    i: int,
    n: nat,
)
    requires
        shard.inv(b.home, i, n),
        b.inv(),
        0 <= l < LANES,
        shard.rings[l].len() > 0,
    ensures
        ({
            let (after, b1, found) = shard.turn(b, l, now);
            shard_outcome(shard, b, after, b1, found, now)
        }),
{
    let t = shard.rings[l][0];
    assert(shard.tenants.contains_key(t));
    invariants::lemma_lane_of_shard(shard, b.home, i, n, t, l);
    let lane = shard.tenants[t].lanes[l];
    let k = lemma_strip_trims(b, lane.queue, t, l, now);
    invariants::lemma_strip(b, lane.queue, t, l, now);
    let (b1, queue) = model::strip(b, lane.queue, now);
    let (after, b2, found) = shard.turn(b, l, now);
    assert(after.tenants.dom() =~= shard.tenants.dom());
    assert(shard.tenant_inv(t, b.home));
    assert forall|u: u64, m: int|
        shard.tenants.contains_key(u) && 0 <= m < LANES && !(u == t && m == l) implies trimmed(
        shard.tenants[u].lanes[m].queue,
        (#[trigger] after.tenants[u].lanes[m]).queue,
        b,
        now,
    ) by {
        lemma_untouched(shard.tenants[u].lanes[m].queue, b, now);
    }
    if found is None {
        assert(trimmed(lane.queue, queue, b, now));
        assert(after.tenants[t].lanes[l].queue == queue);
        assert forall|u: u64, m: int| shard.tenants.contains_key(u) && 0 <= m < LANES implies trimmed(
            shard.tenants[u].lanes[m].queue,
            (#[trigger] after.tenants[u].lanes[m]).queue,
            b,
            now,
        ) by {
            if u == t && m == l {
                assert(trimmed(lane.queue, queue, b, now));
            }
        }
        assert(trimmed_shard(shard, after, b, now));
    } else {
        let entry = queue[0];
        assert(entry == lane.queue[k]);
        assert(queue.drop_first() =~= lane.queue.skip(k + 1));
        assert(b.home.contains_key(entry.id));
        assert(!b.cancelled.contains(entry.id));
        assert(taken(lane.queue, queue.drop_first(), b, entry, now, k));
        assert(after.tenants[t].lanes[l].queue == queue.drop_first());
        assert(trimmed_but(shard, after, b, now, t, l));
        assert(handed_out(shard, b, after, b2, t, entry, now));
    }
}

/// Trimming twice is trimming.
proof fn lemma_trimmed_twice<T>(
    q0: Seq<QueueEntry<T>>,
    q1: Seq<QueueEntry<T>>,
    q2: Seq<QueueEntry<T>>,
    b0: BooksView<T>,
    b1: BooksView<T>,
    now: Instant,
)
    requires
        trimmed(q0, q1, b0, now),
        trimmed(q1, q2, b1, now),
        worn(b0, b1),
    ensures
        trimmed(q0, q2, b0, now),
{
    let k0 = choose|k: int| #[trigger] cut(q0, q1, b0, now, k);
    let k1 = choose|k: int| #[trigger] cut(q1, q2, b1, now, k);
    assert(q2 =~= q0.skip(k0 + k1));
    assert forall|p: int| 0 <= p < k0 + k1 implies b0.stale(#[trigger] q0[p], now) by {
        if p >= k0 {
            assert(q1[p - k0] == q0[p]);
            assert(b1.stale(q1[p - k0], now));
        }
    }
    assert(cut(q0, q2, b0, now, k0 + k1));
}

/// A turn without a task before a further step.
proof fn lemma_outcome_after<T>(
    s0: ShardView<T>,
    b0: BooksView<T>,
    s1: ShardView<T>,
    b1: BooksView<T>,
    s2: ShardView<T>,
    b2: BooksView<T>,
    found: Option<(u64, QueueEntry<T>)>,
    now: Instant,
)
    requires
        b0.inv(),
        b1.inv(),
        worn(b0, b1),
        forall|id: u64| #[trigger] b1.home.contains_key(id) ==> b0.home.contains_key(id)
            && b0.home[id] == b1.home[id],
        trimmed_shard(s0, s1, b0, now),
        shard_outcome(s1, b1, s2, b2, found, now),
    ensures
        shard_outcome(s0, b0, s2, b2, found, now),
{
    let (t, l) = match found {
        Some((t, entry)) => (t, entry.task.priority.rank()),
        None => (0u64, -1int),
    };
    assert forall|u: u64, m: int|
        s0.tenants.contains_key(u) && 0 <= m < LANES && !(u == t && m == l) implies trimmed(
        s0.tenants[u].lanes[m].queue,
        (#[trigger] s2.tenants[u].lanes[m]).queue,
        b0,
        now,
    ) by {
        assert(s1.tenants.contains_key(u));
        lemma_trimmed_twice(
            s0.tenants[u].lanes[m].queue,
            s1.tenants[u].lanes[m].queue,
            s2.tenants[u].lanes[m].queue,
            b0,
            b1,
            now,
        );
    }
    if let Some((t, entry)) = found {
        let q0 = s0.tenants[t].lanes[l].queue;
        let q1 = s1.tenants[t].lanes[l].queue;
        let q2 = s2.tenants[t].lanes[l].queue;
        assert(s0.tenants.contains_key(t)) by {
            assert(s1.tenants.contains_key(t));
        }
        assert(trimmed(q0, q1, b0, now));
        let k = choose|k: int| #[trigger] cut(q0, q1, b0, now, k);
        let p = choose|p: int| #[trigger] taken(q1, q2, b1, entry, now, p);
        assert(q0[k + p] == q1[p]);
        assert(q2 =~= q0.skip(k + p + 1));
        assert(b0.pending.contains(entry.id));
        assert forall|q: int| 0 <= q < k + p implies b0.stale(#[trigger] q0[q], now) by {
            if q >= k {
                assert(q1[q - k] == q0[q]);
                assert(b1.stale(q1[q - k], now));
            }
        }
        assert(taken(q0, q2, b0, entry, now, k + p));
    }
}

/// Numbers that are known after a turn were known before, in the same place.
proof fn lemma_turn_home<T>(
    shard: ShardView<T>,
    b: BooksView<T>,
    l: int,
    now: Instant,
)
    requires
        0 <= l < LANES,
        shard.rings[l].len() > 0,
    ensures
        forall|id: u64| #[trigger]
            shard.turn(b, l, now).1.home.contains_key(id) ==> b.home.contains_key(id)
                && b.home[id] == shard.turn(b, l, now).1.home[id],
{
    let lane = shard.tenants[shard.rings[l][0]].lanes[l];
    lemma_strip_home(b, lane.queue, now);
    let (b1, queue) = model::strip(b, lane.queue, now);
    let b2 = shard.turn(b, l, now).1;
    assert forall|id: u64| #[trigger] b2.home.contains_key(id) implies b.home.contains_key(id)
        && b.home[id] == b2.home[id] by {
        assert(b1.home.contains_key(id));
    }
}

/// Numbers that are known after stripping were known before, in the same place.
proof fn lemma_strip_home<T>(b: BooksView<T>, queue: Seq<QueueEntry<T>>, now: Instant)
    ensures
        forall|id: u64| #[trigger]
            model::strip(b, queue, now).0.home.contains_key(id) ==> b.home.contains_key(id)
                && b.home[id] == model::strip(b, queue, now).0.home[id],
    decreases queue.len(),
{
    if queue.len() > 0 && b.stale(queue[0], now) {
        let b1 = b.discard(queue[0]);
        lemma_strip_home(b1, queue.drop_first(), now);
        let b2 = model::strip(b, queue, now).0;
        assert(b2 == model::strip(b1, queue.drop_first(), now).0);
        assert(b1.home == b.home.remove(queue[0].id));
        assert forall|id: u64| #[trigger] b2.home.contains_key(id) implies b.home.contains_key(id)
            && b.home[id] == b2.home[id] by {
            assert(b1.home.contains_key(id));
        }
    }
}

/// Nothing happens.
proof fn lemma_no_outcome<T>(shard: ShardView<T>, b: BooksView<T>, now: Instant)
    ensures
        shard_outcome(shard, b, shard, b, None, now),
{
    assert forall|u: u64, m: int| shard.tenants.contains_key(u) && 0 <= m < LANES implies trimmed(
        shard.tenants[u].lanes[m].queue,
        (#[trigger] shard.tenants[u].lanes[m]).queue,
        b,
        now,
    ) by {
        lemma_untouched(shard.tenants[u].lanes[m].queue, b, now);
    }
}

/// What comes of a pass.
pub proof fn lemma_pass_outcome<T>(
    shard: ShardView<T>,
    b: BooksView<T>,
    l: int,
    turns: nat,
    now: Instant,
    i: int,
    n: nat,
)
    requires
        shard.inv(b.home, i, n),
        b.inv(),
        0 <= l < LANES,
    ensures
        ({
            let (after, b1, found) = shard.pass(b, l, turns, now);
            &&& shard_outcome(shard, b, after, b1, found, now)
            &&& forall|id: u64| #[trigger]
                b1.home.contains_key(id) ==> b.home.contains_key(id) && b.home[id] == b1.home[id]
        }),
    decreases turns,
{
    if turns > 0 && shard.rings[l].len() > 0 {
        lemma_turn_outcome(shard, b, l, now, i, n);
        lemma_turn_home(shard, b, l, now);
        invariants::lemma_turn(shard, b, l, now, i, n);
        let (s1, b1, found1) = shard.turn(b, l, now);
        if found1 is None {
            lemma_pass_outcome(s1, b1, l, (turns - 1) as nat, now, i, n);
            let (s2, b2, found) = s1.pass(b1, l, (turns - 1) as nat, now);
            lemma_outcome_after(shard, b, s1, b1, s2, b2, found, now);
            assert forall|id: u64| #[trigger] b2.home.contains_key(id) implies b.home.contains_key(
                id,
            ) && b.home[id] == b2.home[id] by {
                assert(b1.home.contains_key(id));
            }
        }
    } else {
        lemma_no_outcome(shard, b, now);
    }
}

/// What comes of a dequeue from a shard.
pub proof fn lemma_dequeue_from_outcome<T>(
    shard: ShardView<T>,
    b: BooksView<T>,
    l: int,
    now: Instant,
    i: int,
    n: nat,
)
    requires
        shard.inv(b.home, i, n),
        b.inv(),
        0 <= l <= LANES,
    ensures
        ({
            let (after, b1, found) = shard.dequeue_from(b, l, now);
            &&& shard_outcome(shard, b, after, b1, found, now)
            &&& forall|id: u64| #[trigger]
                b1.home.contains_key(id) ==> b.home.contains_key(id) && b.home[id] == b1.home[id]
        }),
    decreases LANES - l,
{
    if l < LANES {
        lemma_pass_outcome(shard, b, l, shard.rings[l].len(), now, i, n);
        invariants::lemma_pass(shard, b, l, shard.rings[l].len(), now, i, n);
        let (s1, b1, found1) = shard.pass(b, l, shard.rings[l].len(), now);
        if found1 is None {
            lemma_dequeue_from_outcome(s1, b1, l + 1, now, i, n);
            let (s2, b2, found) = s1.dequeue_from(b1, l + 1, now);
            lemma_outcome_after(shard, b, s1, b1, s2, b2, found, now);
            assert forall|id: u64| #[trigger] b2.home.contains_key(id) implies b.home.contains_key(
                id,
            ) && b.home[id] == b2.home[id] by {
                assert(b1.home.contains_key(id));
            }
        }
    } else {
        lemma_no_outcome(shard, b, now);
    }
}

/// What comes of an attempt to dequeue.
pub open spec fn outcome<T>(
    s: StateView<T>,
    after: StateView<T>,
    found: Option<(u64, QueueEntry<T>)>,
    now: Instant,
) -> bool {
    &&& worn(s.books, after.books)
    &&& after.shards.len() == s.shards.len()
    &&& after.shutdown == s.shutdown
    &&& after.quanta == s.quanta
    &&& forall|id: u64| #[trigger]
        after.books.home.contains_key(id) ==> s.books.home.contains_key(id) && s.books.home[id]
            == after.books.home[id]
    &&& match found {
        Some((t, entry)) => {
            &&& handed_out(
                s.shards[s.shard_index(t)],
                s.books,
                after.shards[s.shard_index(t)],
                after.books,
                t,
                entry,
                now,
            )
            &&& forall|j: int|
                0 <= j < s.shards.len() && j != s.shard_index(t) ==> trimmed_shard(
                    s.shards[j],
                    #[trigger] after.shards[j],
                    s.books,
                    now,
                )
        },
        None => forall|j: int|
            0 <= j < s.shards.len() ==> trimmed_shard(
                s.shards[j],
                #[trigger] after.shards[j],
                s.books,
                now,
            ),
    }
}

/// What comes of a shard's turn.
proof fn lemma_shard_turn_outcome<T>(s: StateView<T>, now: Instant)
    requires
        s.inv(),
        s.ready.len() > 0,
    ensures
        outcome(s, s.shard_turn(now).0, s.shard_turn(now).1, now),
{
    let i = s.ready[0] as int;
    let n = s.shards.len();
    lemma_dequeue_from_outcome(s.shards[i], s.books, 0, now, i, n);
    let (after, found) = s.shard_turn(now);
    assert forall|j: int| 0 <= j < n && j != i implies trimmed_shard(
        s.shards[j],
        #[trigger] after.shards[j],
        s.books,
        now,
    ) by {
        lemma_no_outcome(s.shards[j], s.books, now);
    }
    if let Some((t, entry)) = found {
        assert(s.shards[i].tenants.contains_key(t));
        assert(s.shard_index(t) == i);
    }
}

/// What comes of a sweep.
proof fn lemma_sweep_outcome<T>(s: StateView<T>, turns: nat, now: Instant)
    requires
        s.inv(),
    ensures
        outcome(s, s.sweep(turns, now).0, s.sweep(turns, now).1, now),
    decreases turns,
{
    if turns > 0 && s.ready.len() > 0 {
        lemma_shard_turn_outcome(s, now);
        invariants::lemma_shard_turn(s, now);
        let (s1, found1) = s.shard_turn(now);
        if found1 is None {
            lemma_sweep_outcome(s1, (turns - 1) as nat, now);
            let (s2, found) = s1.sweep((turns - 1) as nat, now);
            let mine = match found {
                Some((t, _)) => s.shard_index(t),
                None => -1,
            };
            assert forall|j: int| 0 <= j < s.shards.len() && j != mine implies trimmed_shard(
                s.shards[j],
                #[trigger] s2.shards[j],
                s.books,
                now,
            ) by {
                assert(trimmed_shard(s.shards[j], s1.shards[j], s.books, now));
                assert(trimmed_shard(s1.shards[j], s2.shards[j], s1.books, now));
                lemma_outcome_after(
                    s.shards[j],
                    s.books,
                    s1.shards[j],
                    s1.books,
                    s2.shards[j],
                    s2.books,
                    None,
                    now,
                );
            }
            assert forall|id: u64| #[trigger]
                s2.books.home.contains_key(id) implies s.books.home.contains_key(id)
                && s.books.home[id] == s2.books.home[id] by {
                assert(s1.books.home.contains_key(id));
            }
            if let Some((t, entry)) = found {
                invariants::lemma_shard_index(s, t);
                assert(trimmed_shard(s.shards[mine], s1.shards[mine], s.books, now));
                lemma_outcome_after(
                    s.shards[mine],
                    s.books,
                    s1.shards[mine],
                    s1.books,
                    s2.shards[mine],
                    s2.books,
                    found,
                    now,
                );
            }
        }
    } else {
        assert forall|j: int| 0 <= j < s.shards.len() implies trimmed_shard(
            s.shards[j],
            #[trigger] s.shards[j],
            s.books,
            now,
        ) by {
            lemma_no_outcome(s.shards[j], s.books, now);
        }
    }
}

/// What comes of an attempt to dequeue.
pub proof fn lemma_dequeue_outcome<T>(s: StateView<T>, now: Instant)
    requires
        s.inv(),
    ensures
        outcome(s, s.dequeue(now).0, s.dequeue(now).1, now),
{
    lemma_sweep_outcome(s, s.ready.len(), now);
    lemma_sweep_outcome(s, 0, now);
}

} // verus!
