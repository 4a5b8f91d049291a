//! How many attempts to dequeue a waiting task needs at most.
use vstd::prelude::*;

use crate::delivery;
use crate::fairness;
use crate::fairness::{next_live, passed_over, turns_to_earn};
use crate::invariants;
use crate::model;
use crate::model::{BooksView, QueueEntry, ShardView, StateView, LANES};
use crate::time::Instant;

verus! {

/// The tenants of the shard that have entries of the priority.
pub open spec fn busy<T>(shard: ShardView<T>, l: int) -> Set<u64> {
    Set::new(
        |u: u64| shard.tenants.contains_key(u) && shard.tenants[u].lanes[l].queue.len() > 0,
    )
}

/// Those of them that are before the given place in the ring.
spec fn ahead<T>(shard: ShardView<T>, l: int, place: int) -> Set<u64> {
    busy(shard, l).intersect(shard.rings[l].take(place).to_set())
}

/// There are only so many tenants with entries.
proof fn lemma_busy_finite<T>(
    shard: ShardView<T>,
    home: Map<u64, (u64, int)>,
    i: int,
    n: nat,
    l: int,
    place: int,
)
    requires
        shard.inv(home, i, n),
        0 <= l < LANES,
        0 <= place < shard.rings[l].len(),
    ensures
        busy(shard, l).finite(),
        ahead(shard, l, place).finite(),
        ahead(shard, l, place).len() <= busy(shard, l).len(),
        busy(shard, l).contains(shard.rings[l][place]) ==> ahead(shard, l, place).len() < busy(
            shard,
            l,
        ).len(),
{
    let ring = shard.rings[l];
    let all = busy(shard, l);
    vstd::seq_lib::seq_to_set_is_finite(ring);
    assert forall|u: u64| all.contains(u) implies #[trigger] ring.to_set().contains(u) by {
        assert(shard.tenant_inv(u, home));
        assert(shard.lane_inv(u, l, home));
    }
    vstd::set_lib::lemma_set_subset_finite(ring.to_set(), all);
    vstd::set_lib::lemma_len_subset(ahead(shard, l, place), all);
    let u = ring[place];
    if all.contains(u) {
        assert(!ahead(shard, l, place).contains(u)) by {
            if ring.take(place).contains(u) {
                let q = choose|q: int| 0 <= q < place && ring.take(place)[q] == u;
                assert(ring[q] == ring[place]);
            }
        }
        assert(ahead(shard, l, place).subset_of(all.remove(u)));
        vstd::set_lib::lemma_len_subset(ahead(shard, l, place), all.remove(u));
    }
}

/// No tenant of the shard has a live entry of a priority from `l` up to, not with, `m`.
pub open spec fn nothing_live<T>(
    shard: ShardView<T>,
    b: BooksView<T>,
    l: int,
    m: int,
    now: Instant,
) -> bool {
    forall|u: u64, k: int|
        shard.tenants.contains_key(u) && l <= k < m ==> next_live(
            (#[trigger] shard.tenants[u].lanes[k]).queue,
            b,
            now,
        ) is None
}

/// What a dequeue from a shard does for a tenant that waits at `place` for its turn, if
/// nothing more urgent is live: it hands out the tenant's task; or the tenant earns its
/// quantum; or the tenant waits behind fewer others than before.
spec fn gains<T>(
    shard: ShardView<T>,
    b: BooksView<T>,
    after: ShardView<T>,
    found: Option<(u64, QueueEntry<T>)>,
    u: u64,
    m: int,
    place: int,
    now: Instant,
) -> bool {
    let lane = shard.tenants[u].lanes[m];
    let lane1 = after.tenants[u].lanes[m];
    ||| next_live(lane.queue, b, now) is Some && found == Some(
        (u, next_live(lane.queue, b, now)->0),
    )
    ||| passed_over(lane, lane1, shard.tenants[u].quantum, b, now)
    ||| lane1 == lane && exists|p1: int|
        0 <= p1 < after.rings[m].len() && #[trigger] after.rings[m][p1] == u && ahead(
            after,
            m,
            p1,
        ).len() < ahead(shard, m, place).len()
}

/// What serving the tenant at `p` does for one that waits behind it.
proof fn lemma_fewer_ahead<T>(
    shard: ShardView<T>,
    after: ShardView<T>,
    home: Map<u64, (u64, int)>,
    i: int,
    n: nat,
    m: int,
    p: int,
    place: int,
)
    requires
        shard.inv(home, i, n),
        0 <= m < LANES,
        0 <= p < place < shard.rings[m].len(),
        busy(shard, m).contains(shard.rings[m][p]),
        busy(after, m).subset_of(busy(shard, m)),
        after.rings[m].len() >= shard.rings[m].len() - p - 1,
        forall|q: int|
            p < q < shard.rings[m].len() ==> after.rings[m][q - p - 1]
                == #[trigger] shard.rings[m][q],
    ensures
        after.rings[m][place - p - 1] == shard.rings[m][place],
        ahead(after, m, place - p - 1).len() < ahead(shard, m, place).len(),
{
    let ring = shard.rings[m];
    let ring1 = after.rings[m];
    let t = ring[p];
    let before = ahead(shard, m, place);
    let now_before = ahead(after, m, place - p - 1);
    lemma_busy_finite(shard, home, i, n, m, place);
    assert(before.contains(t)) by {
        assert(ring.take(place)[p] == t);
    }
    assert forall|u: u64| #[trigger] now_before.contains(u) implies before.remove(t).contains(u) by {
        let q = choose|q: int|
            0 <= q < place - p - 1 && #[trigger] ring1.take(place - p - 1)[q] == u;
        assert(ring1[q] == u);
        assert(ring1[(q + p + 1) - p - 1] == ring[q + p + 1]);
        assert(ring.take(place)[q + p + 1] == u);
        assert(ring[q + p + 1] != ring[p]);
    }
    assert(now_before.subset_of(before.remove(t)));
    vstd::set_lib::lemma_len_subset(now_before, before.remove(t));
}

/// What a dequeue from a shard does for a tenant that waits there, if nothing more urgent
/// is live.
#[verifier::rlimit(40)]
proof fn lemma_gains<T>(
    shard: ShardView<T>,
    b: BooksView<T>,
    l: int,
    now: Instant,
    i: int,
    n: nat,
    u: u64,
    m: int,
    place: int,
)
    requires
        shard.inv(b.home, i, n),
        b.inv(),
        0 <= l <= m < LANES,
        0 <= place < shard.rings[m].len(),
        shard.rings[m][place] == u,
        next_live(shard.tenants[u].lanes[m].queue, b, now) is Some,
        nothing_live(shard, b, l, m, now),
    ensures
        ({
            let (after, b1, found) = shard.dequeue_from(b, l, now);
            &&& gains(shard, b, after, found, u, m, place, now)
            &&& busy(after, m).subset_of(busy(shard, m))
        }),
    decreases LANES - l,
{
    assert(shard.tenants.contains_key(shard.rings[m][place]));
    fairness::lemma_shard_round(shard, b, l, now, i, n);
    invariants::lemma_dequeue_from(shard, b, l, now, i, n);
    let (after, b2, found) = shard.dequeue_from(b, l, now);
    let last = match found {
        Some((_, entry)) => entry.task.priority.rank(),
        None => LANES as int,
    };
    if found is Some {
        let (t, entry) = found->0;
        let _ = shard.tenants[t].lanes[last];
        assert(last >= m);
    }
    if m < last {
        let _ = after.tenants[u].lanes[m];
        assert forall|v: u64| #[trigger] busy(after, m).contains(v) implies busy(shard, m).contains(
            v,
        ) by {
            let _ = after.tenants[v].lanes[m];
        }
    } else {
        let turns = shard.rings[l].len();
        let ring = shard.rings[l];
        let p = fairness::lemma_round(shard, b, l, turns, now, i, n);
        let (s1, b1, found1) = shard.pass(b, l, turns, now);
        if found1 is Some {
            let (t, entry) = found1->0;
            assert(shard.tenants.contains_key(shard.rings[l][p]));
            invariants::lemma_lane_of_shard(shard, b.home, i, n, t, l);
            fairness::lemma_next_live_in(shard.tenants[t].lanes[l].queue, b, now);
            let _ = shard.tenants[t].lanes[l];
            assert(l == m);
            assert forall|v: u64| #[trigger] busy(after, m).contains(v) implies busy(
                shard,
                m,
            ).contains(v) by {
                if ring.contains(v) {
                    let q = choose|q: int| 0 <= q < ring.len() && ring[q] == v;
                    assert(ring[q] == v);
                } else {
                    assert forall|q: int| 0 <= q < turns implies #[trigger] ring[q] != v by {
                        assert(ring.contains(ring[q]));
                    }
                }
            }
            if place < p {
                let _ = ring[place];
            } else if place > p {
                assert(busy(shard, m).contains(t));
                lemma_fewer_ahead(shard, after, b.home, i, n, m, p, place);
                assert(after.tenants[ring[place]] == shard.tenants[ring[place]]);
            }
        } else {
            invariants::lemma_pass(shard, b, l, turns, now, i, n);
            delivery::lemma_pass_outcome(shard, b, l, turns, now, i, n);
            assert(l < last) by {
                fairness::lemma_shard_round(s1, b1, l + 1, now, i, n);
            }
            assert forall|v: u64, k: int|
                shard.tenants.contains_key(v) && l < k <= m implies s1.tenants[v].lanes[k]
                == shard.tenants[v].lanes[k] && next_live(
                (#[trigger] s1.tenants[v].lanes[k]).queue,
                b1,
                now,
            ) == next_live(s1.tenants[v].lanes[k].queue, b, now) by {
                assert(s1.tenants.contains_key(v));
                invariants::lemma_lane_of_shard(s1, b1.home, i, n, v, k);
                fairness::lemma_next_live_same(s1.tenants[v].lanes[k].queue, b, b1, now);
            }
            assert(s1.rings[m] == shard.rings[m]);
            let _ = s1.tenants[u].lanes[m];
            assert(nothing_live(s1, b1, l + 1, m, now)) by {
                assert forall|v: u64, k: int|
                    s1.tenants.contains_key(v) && l + 1 <= k < m implies next_live(
                    (#[trigger] s1.tenants[v].lanes[k]).queue,
                    b1,
                    now,
                ) is None by {
                    let _ = shard.tenants[v].lanes[k];
                }
            }
            lemma_gains(s1, b1, l + 1, now, i, n, u, m, place);
            assert(busy(s1, m) =~= busy(shard, m)) by {
                assert forall|v: u64| busy(s1, m).contains(v) == busy(shard, m).contains(v) by {
                    let _ = s1.tenants[v].lanes[m];
                }
            }
        }
    }
}

/// What a sweep does for a shard that waits at `turn` for its turn: some shard before it
/// hands out a task, and it moves up unchanged; or it has its turn. Gives back the books
/// of that moment if it has.
proof fn lemma_sweep_reaches<T>(s: StateView<T>, turns: nat, now: Instant, i: int, turn: int) -> (b:
    Option<BooksView<T>>)
    requires
        s.inv(),
        turns <= s.ready.len(),
        0 <= turn < turns,
        s.ready[turn] == i,
    ensures
        ({
            let (after, found) = s.sweep(turns, now);
            &&& after.shards.len() == s.shards.len()
            &&& after.ready.len() <= s.ready.len()
            &&& match b {
                None => after.shards[i] == s.shards[i] && exists|r: int|
                    0 <= r < turn && r < after.ready.len() && #[trigger] after.ready[r] == i,
                Some(books) => {
                    let (shard, _, f) = s.shards[i].dequeue_from(books, 0, now);
                    &&& books.inv()
                    &&& delivery::worn(s.books, books)
                    &&& s.shards[i].inv(books.home, i, s.shards.len())
                    &&& after.shards[i] == shard
                    &&& f is Some ==> found == f
                },
            }
        }),
    decreases turns,
{
    let n = s.shards.len();
    let j = s.ready[0] as int;
    invariants::lemma_shard_turn(s, now);
    invariants::lemma_sweep(s, turns, now);
    delivery::lemma_dequeue_from_outcome(s.shards[j], s.books, 0, now, j, n);
    let p = fairness::lemma_sweep_round(s, turns, now);
    let (s1, found1) = s.shard_turn(now);
    let (after, found) = s.sweep(turns, now);
    lemma_ready_shrinks(s, turns, now);
    assert(s.shards[i].inv(s.books.home, i, n));
    if turn == 0 {
        if found1 is None {
            let p1 = fairness::lemma_sweep_round(s1, (turns - 1) as nat, now);
            assert forall|q: int| 0 <= q < turns - 1 implies (#[trigger] s1.ready[q]) != i by {
                assert(s1.ready[q] == s.ready[q + 1]);
                assert(s.ready[q + 1] != s.ready[0]);
            }
            assert(after.shards[i] == s1.shards[i]);
        }
        assert(delivery::worn(s.books, s.books));
        Some(s.books)
    } else {
        assert(s.ready[turn] != s.ready[0]);
        assert(s1.shards[i] == s.shards[i]);
        assert(s1.ready[turn - 1] == s.ready[turn]);
        if found1 is Some {
            assert(after.ready[turn - 1] == i);
            None
        } else {
            let b = lemma_sweep_reaches(s1, (turns - 1) as nat, now, i, turn - 1);
            if let Some(books) = b {
                assert(delivery::worn(s.books, books));
            }
            b
        }
    }
}

/// No sweep makes more shards wait for their turns.
proof fn lemma_ready_shrinks<T>(s: StateView<T>, turns: nat, now: Instant)
    ensures
        s.sweep(turns, now).0.ready.len() <= s.ready.len(),
    decreases turns,
{
    if turns > 0 && s.ready.len() > 0 {
        let (s1, found) = s.shard_turn(now);
        lemma_ready_shrinks(s1, (turns - 1) as nat, now);
    }
}

/// What waits without a deadline behind stale entries still does so later.
proof fn lemma_next_live_later<T>(
    queue: Seq<QueueEntry<T>>,
    b: BooksView<T>,
    now: Instant,
    later: Instant,
    entry: QueueEntry<T>,
)
    requires
        next_live(queue, b, now) == Some(entry),
        entry.task.deadline is None,
        now.nanos <= later.nanos,
    ensures
        next_live(queue, b, later) == Some(entry),
    decreases queue.len(),
{
    if b.stale(queue[0], now) {
        lemma_next_live_later(queue.drop_first(), b, now, later, entry);
    }
}

/// What is stale still is later.
proof fn lemma_none_later<T>(
    queue: Seq<QueueEntry<T>>,
    b: BooksView<T>,
    now: Instant,
    later: Instant,
)
    requires
        next_live(queue, b, now) is None,
        now.nanos <= later.nanos,
    ensures
        next_live(queue, b, later) is None,
    decreases queue.len(),
{
    if queue.len() > 0 {
        lemma_none_later(queue.drop_first(), b, now, later);
    }
}

/// The state after attempts to dequeue at the given moments.
pub open spec fn after_calls<T>(s: StateView<T>, moments: Seq<Instant>) -> StateView<T>
    decreases moments.len(),
{
    if moments.len() == 0 {
        s
    } else {
        after_calls(s.dequeue(moments[0]).0, moments.drop_first())
    }
}

/// The clock does not go back.
pub open spec fn in_order(moments: Seq<Instant>) -> bool {
    forall|i: int, j: int|
        0 <= i <= j < moments.len() ==> (#[trigger] moments[i]).nanos <= (
        #[trigger] moments[j]).nanos
}

/// The turns without service that the tenant has before it can pay.
spec fn need<T>(s: StateView<T>, t: u64, m: int, entry: QueueEntry<T>) -> int {
    turns_to_earn(
        s.tenant(t).lanes[m].deficit,
        s.tenant(t).quantum,
        model::budget(entry.task.cost as int),
    )
}

/// The shard of a tenant that is in a ring waits for its turn. Gives back where.
proof fn lemma_shard_waits<T>(s: StateView<T>, i: int, m: int) -> (turn: int)
    requires
        s.inv(),
        0 <= i < s.shards.len(),
        0 <= m < LANES,
        s.shards[i].rings[m].len() > 0,
    ensures
        0 <= turn < s.ready.len(),
        s.ready[turn] == i,
{
    assert(s.shards[i].has_work());
    assert(s.shard_active[i]);
    assert(s.ready.contains(i as usize));
    let turn = choose|turn: int| 0 <= turn < s.ready.len() && s.ready[turn] == i as usize;
    turn
}

/// A shard without live entries that had its turn or not has none later.
proof fn lemma_nothing_live_later<T>(
    shard: ShardView<T>,
    b: BooksView<T>,
    b1: BooksView<T>,
    i: int,
    n: nat,
    m: int,
    now: Instant,
    later: Instant,
)
    requires
        b.inv(),
        b1.inv(),
        delivery::worn(b, b1),
        shard.inv(b1.home, i, n),
        0 <= m < LANES,
        nothing_live(shard, b, 0, m, now),
        now.nanos <= later.nanos,
    ensures
        nothing_live(shard, b1, 0, m, later),
{
    assert forall|u: u64, k: int| shard.tenants.contains_key(u) && 0 <= k < m implies next_live(
        (#[trigger] shard.tenants[u].lanes[k]).queue,
        b1,
        later,
    ) is None by {
        let queue = shard.tenants[u].lanes[k].queue;
        invariants::lemma_lane_of_shard(shard, b1.home, i, n, u, k);
        fairness::lemma_next_live_same(queue, b, b1, now);
        lemma_none_later(queue, b1, now, later);
    }
}

/// Lanes without a live entry that had their turns before the task that was handed out
/// are empty afterwards.
proof fn lemma_emptied<T>(
    shard: ShardView<T>,
    b: BooksView<T>,
    i: int,
    n: nat,
    m: int,
    now: Instant,
    b1: BooksView<T>,
    later: Instant,
)
    requires
        shard.inv(b.home, i, n),
        b.inv(),
        0 <= m < LANES,
        nothing_live(shard, b, 0, m, now),
    ensures
        nothing_live(shard.dequeue_from(b, 0, now).0, b1, 0, m, later),
{
    fairness::lemma_shard_round(shard, b, 0, now, i, n);
    let (after, _, found) = shard.dequeue_from(b, 0, now);
    let last = match found {
        Some((_, entry)) => entry.task.priority.rank(),
        None => LANES as int,
    };
    if found is Some {
        let (t, entry) = found->0;
        let _ = shard.tenants[t].lanes[last];
        assert(last >= m);
    }
    assert forall|u: u64, k: int| after.tenants.contains_key(u) && 0 <= k < m implies next_live(
        (#[trigger] after.tenants[u].lanes[k]).queue,
        b1,
        later,
    ) is None by {
        let _ = shard.tenants[u].lanes[k];
    }
}

/// What an attempt does for a tenant that waits in the ring of a shard that waits for its
/// turn, if it does not hand out the tenant's task: less is left to wait for. Gives back
/// where the tenant and the shard wait now.
#[verifier::rlimit(60)]
proof fn lemma_attempt_gains<T>(
    s: StateView<T>,
    t: u64,
    m: int,
    entry: QueueEntry<T>,
    place: int,
    turn: int,
    now: Instant,
    later: Instant,
) -> (at: (int, int))
    requires
        s.inv(),
        s.shutdown != model::ShutdownState::Immediate,
        s.knows(t),
        0 <= m < LANES,
        0 <= place < s.shards[s.shard_index(t)].rings[m].len(),
        s.shards[s.shard_index(t)].rings[m][place] == t,
        0 <= turn < s.ready.len(),
        s.ready[turn] == s.shard_index(t),
        entry.task.deadline is None,
        now.nanos <= later.nanos,
        next_live(s.tenant(t).lanes[m].queue, s.books, now) == Some(entry),
        nothing_live(s.shards[s.shard_index(t)], s.books, 0, m, now),
        s.dequeue(now).1 != Some((t, entry)),
    ensures
        ({
            let s1 = s.dequeue(now).0;
            let i = s.shard_index(t);
            &&& s1.inv()
            &&& s1.shutdown == s.shutdown
            &&& s1.shards.len() == s.shards.len()
            &&& s1.knows(t)
            &&& s1.ready.len() <= s.ready.len()
            &&& 0 <= at.0 < s1.shards[i].rings[m].len()
            &&& s1.shards[i].rings[m][at.0] == t
            &&& 0 <= at.1 < s1.ready.len()
            &&& s1.ready[at.1] == i
            &&& next_live(s1.tenant(t).lanes[m].queue, s1.books, later) == Some(entry)
            &&& nothing_live(s1.shards[i], s1.books, 0, m, later)
            &&& 0 <= left(s1, t, m, entry, at.0)
            &&& left(s1, t, m, entry, at.0) < left(s, t, m, entry, place) || left(
                s1,
                t,
                m,
                entry,
                at.0,
            ) == left(s, t, m, entry, place) && at.1 < turn
        }),
{
    let i = s.shard_index(t);
    let n = s.shards.len();
    let shard = s.shards[i];
    invariants::lemma_shard_index(s, t);
    assert(shard.inv(s.books.home, i, n));
    assert(shard.tenant_inv(t, s.books.home));
    assert(shard.lane_inv(t, m, s.books.home));
    let lane = shard.tenants[t].lanes[m];
    let quantum = shard.tenants[t].quantum;
    let cost = model::budget(entry.task.cost as int);
    let want = need(s, t, m, entry);
    if lane.deficit < cost {
        fairness::lemma_earning(lane.deficit, quantum, cost);
    }
    let total = busy(shard, m).len();
    lemma_busy_finite(shard, s.books.home, i, n, m, place);
    assert(want * total >= 0) by (nonlinear_arith)
        requires
            want >= 0,
            total >= 0,
    ;
    let b = lemma_sweep_reaches(s, s.ready.len(), now, i, turn);
    invariants::lemma_dequeue(s, now);
    delivery::lemma_dequeue_outcome(s, now);
    let s1 = s.dequeue(now).0;
    let after = s1.shards[i];
    assert(after.inv(s1.books.home, i, n));
    match b {
        None => {
            let r = choose|r: int|
                0 <= r < turn && r < s1.ready.len() && #[trigger] s1.ready[r] == i;
            invariants::lemma_lane_of_shard(after, s1.books.home, i, n, t, m);
            fairness::lemma_next_live_same(lane.queue, s.books, s1.books, now);
            lemma_next_live_later(lane.queue, s1.books, now, later, entry);
            lemma_nothing_live_later(shard, s.books, s1.books, i, n, m, now, later);
            (place, r)
        },
        Some(books) => {
            assert forall|u: u64, k: int|
                shard.tenants.contains_key(u) && 0 <= k <= m implies next_live(
                (#[trigger] shard.tenants[u].lanes[k]).queue,
                books,
                now,
            ) == next_live(shard.tenants[u].lanes[k].queue, s.books, now) by {
                invariants::lemma_lane_of_shard(shard, books.home, i, n, u, k);
                fairness::lemma_next_live_same(
                    shard.tenants[u].lanes[k].queue,
                    s.books,
                    books,
                    now,
                );
            }
            assert(nothing_live(shard, books, 0, m, now)) by {
                assert forall|u: u64, k: int|
                    shard.tenants.contains_key(u) && 0 <= k < m implies next_live(
                    (#[trigger] shard.tenants[u].lanes[k]).queue,
                    books,
                    now,
                ) is None by {}
            }
            let _ = shard.tenants[t].lanes[m];
            lemma_gains(shard, books, 0, now, i, n, t, m, place);
            lemma_emptied(shard, books, i, n, m, now, s1.books, later);
            fairness::lemma_shard_round(shard, books, 0, now, i, n);
            let lane1 = after.tenants[t].lanes[m];
            invariants::lemma_lane_of_shard(after, s1.books.home, i, n, t, m);
            assert(after.tenant_inv(t, s1.books.home));
            assert(after.lane_inv(t, m, s1.books.home));
            fairness::lemma_next_live_in(lane.queue, s.books, now);
            let total1 = busy(after, m).len();
            vstd::set_lib::lemma_len_subset(busy(after, m), busy(shard, m));
            let fewer = exists|p1: int|
                0 <= p1 < after.rings[m].len() && #[trigger] after.rings[m][p1] == t && ahead(
                    after,
                    m,
                    p1,
                ).len() < ahead(shard, m, place).len();
            let place1 = if lane1 == lane && fewer {
                choose|p1: int|
                    0 <= p1 < after.rings[m].len() && #[trigger] after.rings[m][p1] == t && ahead(
                        after,
                        m,
                        p1,
                    ).len() < ahead(shard, m, place).len()
            } else {
                choose|p1: int|
                    0 <= p1 < after.rings[m].len() && #[trigger] after.rings[m][p1] == t
            };
            assert(next_live(lane1.queue, s.books, now) == Some(entry));
            fairness::lemma_next_live_same(lane1.queue, s.books, s1.books, now);
            lemma_next_live_later(lane1.queue, s1.books, now, later, entry);
            let want1 = need(s1, t, m, entry);
            assert(after.tenants[t].quantum == quantum);
            assert(after.rings[m].contains(t));
            assert(0 <= place1 < after.rings[m].len() && after.rings[m][place1] == t);
            lemma_busy_finite(after, s1.books.home, i, n, m, place1);
            assert(busy(after, m).contains(t));
            let ahead1 = ahead(after, m, place1).len();
            if lane1 == lane && fewer {
                assert(0 <= want1 * total1 <= want * total) by (nonlinear_arith)
                    requires
                        want1 == want,
                        want >= 0,
                        total1 <= total,
                ;
            } else {
                assert(passed_over(lane, lane1, quantum, books, now));
                assert(0 <= want1 * total1 && want1 * total1 + ahead1 < want * total)
                    by (nonlinear_arith)
                    requires
                        0 <= want1 <= want - 1,
                        total1 <= total,
                        ahead1 < total1,
                ;
            }
            let turn1 = lemma_shard_waits(s1, i, m);
            (place1, turn1)
        },
    }
}

/// Shard turns that a tenant that waits at `place` needs before the one that serves it.
spec fn left<T>(s: StateView<T>, t: u64, m: int, entry: QueueEntry<T>, place: int) -> int {
    let shard = s.shards[s.shard_index(t)];
    need(s, t, m, entry) * busy(shard, m).len() + ahead(shard, m, place).len()
}

/// The task of a tenant that waits at `place` is handed out by one of the next attempts,
/// if they are more than the shard turns that it needs, each a round of `shards` long,
/// and those before the first. Gives back the number of attempts before that one.
proof fn lemma_handed_out_within<T>(
    s: StateView<T>,
    t: u64,
    m: int,
    entry: QueueEntry<T>,
    place: int,
    turn: int,
    shards: nat,
    moments: Seq<Instant>,
) -> (k: nat)
    requires
        s.inv(),
        s.shutdown != model::ShutdownState::Immediate,
        s.knows(t),
        0 <= m < LANES,
        0 <= place < s.shards[s.shard_index(t)].rings[m].len(),
        s.shards[s.shard_index(t)].rings[m][place] == t,
        0 <= turn < s.ready.len() <= shards,
        s.ready[turn] == s.shard_index(t),
        entry.task.deadline is None,
        in_order(moments),
        moments.len() > 0 ==> next_live(s.tenant(t).lanes[m].queue, s.books, moments[0]) == Some(
            entry,
        ),
        moments.len() > 0 ==> nothing_live(
            s.shards[s.shard_index(t)],
            s.books,
            0,
            m,
            moments[0],
        ),
        left(s, t, m, entry, place) >= 0,
        moments.len() > left(s, t, m, entry, place) * shards + turn,
    ensures
        k < moments.len(),
        after_calls(s, moments.take(k as int)).dequeue(moments[k as int]).1 == Some((t, entry)),
    decreases moments.len(),
{
    let before = left(s, t, m, entry, place);
    assert(before * shards >= 0) by (nonlinear_arith)
        requires
            before >= 0,
            shards >= 0,
    ;
    let now = moments[0];
    if s.dequeue(now).1 == Some((t, entry)) {
        assert(moments.take(0).len() == 0);
        0
    } else {
        let rest = moments.drop_first();
        let later = if rest.len() > 0 {
            rest[0]
        } else {
            now
        };
        if rest.len() > 0 {
            assert(moments[0].nanos <= moments[1].nanos);
        }
        let (place1, turn1) = lemma_attempt_gains(s, t, m, entry, place, turn, now, later);
        let s1 = s.dequeue(now).0;
        let after = left(s1, t, m, entry, place1);
        assert(after * shards + turn1 < before * shards + turn) by (nonlinear_arith)
            requires
                after < before && turn1 < shards && turn >= 0 || after == before && turn1 < turn,
        ;
        assert(in_order(rest)) by {
            assert forall|i: int, j: int| 0 <= i <= j < rest.len() implies (
            #[trigger] rest[i]).nanos <= (#[trigger] rest[j]).nanos by {
                assert(moments[i + 1].nanos <= moments[j + 1].nanos);
            }
        }
        let k1 = lemma_handed_out_within(s1, t, m, entry, place1, turn1, shards, rest);
        let k = k1 + 1;
        assert(moments.take(k as int).drop_first() =~= rest.take(k1 as int));
        assert(moments.take(k as int)[0] == now);
        assert(rest[k1 as int] == moments[k as int]);
        k
    }
}

/// A waiting task comes in time. Take a scheduler that is not closed at once, and a tenant
/// whose first live task of some priority has no deadline, while nothing more urgent is
/// live in the tenant's shard. If there are attempts to dequeue and nothing else, that task
/// is handed out by one of the next `k * n * (r + 1)`, where `k` is the number of shards
/// that wait for their turns, `n` that of the tenants of the shard with entries of that
/// priority, and `r` that of the tenant's quanta that make up the task's cost.
pub proof fn law_waiting_tasks_come_in_time<T>(
    s: StateView<T>,
    t: u64,
    m: int,
    moments: Seq<Instant>,
)
    requires
        s.inv(),
        s.shutdown != model::ShutdownState::Immediate,
        s.knows(t),
        0 <= m < LANES,
        in_order(moments),
        moments.len() > 0,
        nothing_live(s.shards[s.shard_index(t)], s.books, 0, m, moments[0]),
        next_live(s.tenant(t).lanes[m].queue, s.books, moments[0]) matches Some(entry)
            && entry.task.deadline is None && moments.len() >= s.ready.len() * (busy(
            s.shards[s.shard_index(t)],
            m,
        ).len() * (turns_to_earn(0, s.tenant(t).quantum, model::budget(entry.task.cost as int))
            + 1)),
    ensures
        exists|k: int|
            0 <= k < moments.len() && (#[trigger] after_calls(s, moments.take(k)).dequeue(
                moments[k],
            )).1 == Some(
                (t, next_live(s.tenant(t).lanes[m].queue, s.books, moments[0])->0),
            ),
{
    let entry = next_live(s.tenant(t).lanes[m].queue, s.books, moments[0])->0;
    let i = s.shard_index(t);
    let n = s.shards.len();
    let shard = s.shards[i];
    invariants::lemma_shard_index(s, t);
    assert(shard.inv(s.books.home, i, n));
    assert(shard.tenant_inv(t, s.books.home));
    assert(shard.lane_inv(t, m, s.books.home));
    let lane = shard.tenants[t].lanes[m];
    let place = choose|p: int| 0 <= p < shard.rings[m].len() && #[trigger] shard.rings[m][p] == t;
    assert(0 <= place < shard.rings[m].len() && shard.rings[m][place] == t);
    lemma_busy_finite(shard, s.books.home, i, n, m, place);
    assert(busy(shard, m).contains(t));
    let quantum = shard.tenants[t].quantum;
    let cost = model::budget(entry.task.cost as int);
    let most = turns_to_earn(0, quantum, cost);
    let want = need(s, t, m, entry);
    let deficit = lane.deficit;
    assert(0 <= want <= most) by {
        if deficit < cost {
            fairness::lemma_earning(deficit, quantum, cost);
            assert((cost - deficit + quantum - 1) / quantum <= (cost + quantum - 1) / quantum)
                by (nonlinear_arith)
                requires
                    quantum >= 1,
                    deficit >= 0,
            ;
        } else if cost > 0 {
            fairness::lemma_earning(0, quantum, cost);
        }
    }
    let total = busy(shard, m).len();
    let before = ahead(shard, m, place).len();
    let bound = total * (most + 1);
    assert(0 <= want * total + before < bound) by (nonlinear_arith)
        requires
            0 <= want <= most,
            before < total,
            bound == total * (most + 1),
    ;
    let turn = lemma_shard_waits(s, i, m);
    let shards = s.ready.len();
    let inner = left(s, t, m, entry, place);
    assert(inner * shards + turn < shards * bound) by (nonlinear_arith)
        requires
            0 <= inner < bound,
            0 <= turn < shards,
    ;
    let k = lemma_handed_out_within(s, t, m, entry, place, turn, shards, moments);
    let _ = after_calls(s, moments.take(k as int)).dequeue(moments[k as int]);
}

} // verus!
