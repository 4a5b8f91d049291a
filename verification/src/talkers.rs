//! How good the table of top talkers is.
use vstd::prelude::*;

use crate::api::{QuantumProvider, TenantCount, TenantKey};
use crate::capacity;
use crate::laws;
use crate::laws::Step;
use crate::model::{Limits, QueueEntry, StateView, TopView};

verus! {

/// A table of so many entries after these observations, one after the other.
pub open spec fn observed(capacity: nat, seen: Seq<(TenantKey, u64)>) -> TopView
    decreases seen.len(),
{
    if seen.len() == 0 {
        TopView { capacity, entries: Seq::empty() }
    } else {
        observed(capacity, seen.drop_last()).record(seen.last().0, seen.last().1)
    }
}

/// The table after an attempt to dequeue: the tenant of a task that was handed out is
/// counted.
pub open spec fn credited<T>(top: TopView, found: Option<(u64, QueueEntry<T>)>) -> TopView {
    match found {
        Some((t, _)) => top.record(TenantKey(t), 1),
        None => top,
    }
}

/// All that was observed.
pub open spec fn total(seen: Seq<(TenantKey, u64)>) -> int
    decreases seen.len(),
{
    if seen.len() == 0 {
        0
    } else {
        total(seen.drop_last()) + seen.last().1
    }
}

/// What was observed of the tenant.
pub open spec fn share(seen: Seq<(TenantKey, u64)>, tenant: TenantKey) -> int
    decreases seen.len(),
{
    if seen.len() == 0 {
        0
    } else {
        share(seen.drop_last(), tenant) + if seen.last().0 == tenant {
            seen.last().1 as int
        } else {
            0
        }
    }
}

/// The counts of all entries together.
pub open spec fn counted(entries: Seq<TenantCount>) -> int
    decreases entries.len(),
{
    if entries.len() == 0 {
        0
    } else {
        counted(entries.drop_last()) + entries.last().count
    }
}

/// Another count for an entry changes the sum by the difference.
proof fn lemma_counted_update(entries: Seq<TenantCount>, i: int, entry: TenantCount)
    requires
        0 <= i < entries.len(),
    ensures
        counted(entries.update(i, entry)) == counted(entries) - entries[i].count + entry.count,
    decreases entries.len(),
{
    let after = entries.update(i, entry);
    if i == entries.len() - 1 {
        assert(after.drop_last() =~= entries.drop_last());
    } else {
        lemma_counted_update(entries.drop_last(), i, entry);
        assert(after.drop_last() =~= entries.drop_last().update(i, entry));
    }
}

/// No entry counts more than all together, and if none counts less than `least`, all
/// together count that much for each of them.
proof fn lemma_counted_bounds(entries: Seq<TenantCount>, least: int)
    requires
        forall|j: int| 0 <= j < entries.len() ==> least <= (#[trigger] entries[j]).count,
    ensures
        entries.len() * least <= counted(entries),
        0 <= counted(entries),
        forall|j: int|
            0 <= j < entries.len() ==> (#[trigger] entries[j]).count <= counted(entries),
    decreases entries.len(),
{
    if entries.len() > 0 {
        let rest = entries.drop_last();
        assert forall|j: int| 0 <= j < rest.len() implies least <= (#[trigger] rest[j]).count by {
            assert(least <= entries[j].count);
        }
        lemma_counted_bounds(rest, least);
        assert(entries.len() * least == rest.len() * least + least) by (nonlinear_arith)
            requires
                entries.len() == rest.len() + 1,
        ;
        assert(least <= entries[entries.len() - 1].count);
        assert forall|j: int| 0 <= j < entries.len() implies (#[trigger] entries[j]).count
            <= counted(entries) by {
            if j < rest.len() {
                assert(rest[j].count <= counted(rest));
            }
        }
    } else {
        assert(entries.len() * least == 0) by (nonlinear_arith)
            requires
                entries.len() == 0,
        ;
    }
}

/// What the table keeps: counts are not below what was observed, they add up, and what
/// was observed of a tenant without an entry is no more than any count; it is nothing
/// while there are free entries.
spec fn sound(top: TopView, seen: Seq<(TenantKey, u64)>) -> bool {
    &&& top.inv()
    &&& counted(top.entries) == total(seen)
    &&& forall|i: int|
        0 <= i < top.entries.len() ==> (#[trigger] top.entries[i]).count >= share(
            seen,
            top.entries[i].tenant,
        )
    &&& forall|x: TenantKey, i: int|
        #![trigger share(seen, x), top.entries[i]]
        !top.tracks(x) && 0 <= i < top.entries.len() ==> share(seen, x) <= top.entries[i].count
    &&& forall|x: TenantKey|
        !top.tracks(x) && top.entries.len() < top.capacity ==> #[trigger] share(seen, x) == 0
}

/// There is an entry with the lowest count.
proof fn lemma_lowest(top: TopView, n: nat) -> (i: int)
    requires
        0 < n <= top.entries.len(),
    ensures
        0 <= i < n,
        forall|j: int| 0 <= j < n ==> top.entries[i].count <= (#[trigger] top.entries[j]).count,
        forall|j: int| 0 <= j < i ==> top.entries[i].count < (#[trigger] top.entries[j]).count,
    decreases n,
{
    if n == 1 {
        0
    } else {
        let i = lemma_lowest(top, (n - 1) as nat);
        if top.entries[n - 1].count < top.entries[i].count {
            n - 1
        } else {
            i
        }
    }
}

/// A further observation keeps the table sound.
proof fn lemma_record_sound(top: TopView, seen: Seq<(TenantKey, u64)>, tenant: TenantKey, delta: u64)
    requires
        sound(top, seen),
        top.capacity > 0,
        total(seen) + delta <= u64::MAX,
    ensures
        sound(top.record(tenant, delta), seen.push((tenant, delta))),
        top.record(tenant, delta).capacity == top.capacity,
{
    let more = seen.push((tenant, delta));
    let after = top.record(tenant, delta);
    assert(more.drop_last() =~= seen);
    assert forall|x: TenantKey| #[trigger] share(more, x) == share(seen, x) + if x == tenant {
        delta as int
    } else {
        0
    } by {}
    lemma_counted_bounds(top.entries, 0);
    crate::invariants::lemma_top_record(top, tenant, delta);
    if top.tracks(tenant) {
        let i = top.slot_of(tenant);
        assert(0 <= i < top.entries.len() && top.entries[i].tenant == tenant);
        let entry = TenantCount { tenant, count: (top.entries[i].count + delta) as u64 };
        assert(top.entries[i].count <= counted(top.entries));
        assert(after.entries == top.entries.update(i, entry));
        lemma_counted_update(top.entries, i, entry);
        assert forall|x: TenantKey| after.tracks(x) <==> #[trigger] top.tracks(x) by {
            lemma_same_tenants(top, after, x);
        }
        assert forall|j: int| 0 <= j < after.entries.len() implies (
        #[trigger] after.entries[j]).count >= share(more, after.entries[j].tenant) by {
            let _ = top.entries[j];
            if j != i {
                assert(top.entries[j].tenant != tenant);
            }
        }
        assert forall|x: TenantKey, j: int|
            #![trigger share(more, x), after.entries[j]]
            !after.tracks(x) && 0 <= j < after.entries.len() implies share(more, x)
            <= after.entries[j].count by {
            let _ = share(seen, x);
            let _ = top.entries[j];
            assert(!top.tracks(x));
        }
        assert forall|x: TenantKey|
            !after.tracks(x) && after.entries.len() < after.capacity implies #[trigger] share(
            more,
            x,
        ) == 0 by {
            let _ = share(seen, x);
            assert(!top.tracks(x));
        }
    } else if top.entries.len() < top.capacity {
        let entry = TenantCount { tenant, count: delta };
        assert(after.entries == top.entries.push(entry));
        assert(after.entries.drop_last() =~= top.entries);
        let last = top.entries.len() as int;
        assert(after.entries[last].tenant == tenant);
        assert forall|x: TenantKey| !after.tracks(x) implies !#[trigger] top.tracks(x) && x
            != tenant by {
            if top.tracks(x) {
                let j = choose|j: int|
                    0 <= j < top.entries.len() && (#[trigger] top.entries[j]).tenant == x;
                assert(after.entries[j].tenant == x);
            }
        }
        assert forall|j: int| 0 <= j < after.entries.len() implies (
        #[trigger] after.entries[j]).count >= share(more, after.entries[j].tenant) by {
            if j < last {
                let _ = top.entries[j];
                assert(top.entries[j].tenant != tenant);
            } else {
                assert(share(seen, tenant) == 0);
            }
        }
        assert forall|x: TenantKey, j: int|
            #![trigger share(more, x), after.entries[j]]
            !after.tracks(x) && 0 <= j < after.entries.len() implies share(more, x)
            <= after.entries[j].count by {
            assert(!top.tracks(x));
            assert(share(seen, x) == 0);
        }
        assert forall|x: TenantKey|
            !after.tracks(x) && after.entries.len() < after.capacity implies #[trigger] share(
            more,
            x,
        ) == 0 by {
            assert(!top.tracks(x));
            assert(share(seen, x) == 0);
        }
    } else {
        let found = lemma_lowest(top, top.entries.len());
        assert(top.is_lowest(found));
        let i = choose|i: int| top.is_lowest(i);
        assert(top.is_lowest(i));
        assert(top.entries[i].count <= counted(top.entries));
        let entry = TenantCount { tenant, count: (top.entries[i].count + delta) as u64 };
        assert(after.entries == top.entries.update(i, entry));
        lemma_counted_update(top.entries, i, entry);
        let evicted = top.entries[i].tenant;
        assert(after.entries[i].tenant == tenant);
        assert forall|x: TenantKey| !after.tracks(x) implies x != tenant && (x == evicted
            || !#[trigger] top.tracks(x)) by {
            if top.tracks(x) && x != evicted {
                let j = choose|j: int|
                    0 <= j < top.entries.len() && (#[trigger] top.entries[j]).tenant == x;
                assert(after.entries[j].tenant == x);
            }
        }
        assert forall|j: int| 0 <= j < after.entries.len() implies (
        #[trigger] after.entries[j]).count >= share(more, after.entries[j].tenant) by {
            let _ = top.entries[j];
            if j == i {
                assert(share(seen, tenant) <= top.entries[i].count);
            } else {
                assert(top.entries[j].tenant != tenant);
            }
        }
        assert forall|x: TenantKey, j: int|
            #![trigger share(more, x), after.entries[j]]
            !after.tracks(x) && 0 <= j < after.entries.len() implies share(more, x)
            <= after.entries[j].count by {
            let _ = top.tracks(x);
            let _ = top.entries[j];
            let _ = share(seen, x);
            assert(share(seen, x) <= top.entries[i].count);
            assert(top.entries[i].count <= top.entries[j].count);
        }
    }
}

/// Another count for an entry leaves the tenants of the table as they are.
proof fn lemma_same_tenants(top: TopView, after: TopView, x: TenantKey)
    requires
        after.entries.len() == top.entries.len(),
        forall|j: int|
            0 <= j < top.entries.len() ==> (#[trigger] top.entries[j]).tenant
                == after.entries[j].tenant,
    ensures
        after.tracks(x) <==> top.tracks(x),
{
    if top.tracks(x) {
        let j = choose|j: int|
            0 <= j < top.entries.len() && (#[trigger] top.entries[j]).tenant == x;
        assert(after.entries[j].tenant == x);
    }
    if after.tracks(x) {
        let j = choose|j: int|
            0 <= j < after.entries.len() && (#[trigger] after.entries[j]).tenant == x;
        assert(top.entries[j].tenant == x);
    }
}

/// The table is sound after any observations.
proof fn lemma_observed_sound(capacity: nat, seen: Seq<(TenantKey, u64)>)
    requires
        capacity > 0,
        total(seen) <= u64::MAX,
    ensures
        sound(observed(capacity, seen), seen),
        observed(capacity, seen).capacity == capacity,
    decreases seen.len(),
{
    if seen.len() > 0 {
        let before = seen.drop_last();
        lemma_observed_sound(capacity, before);
        lemma_record_sound(
            observed(capacity, before),
            before,
            seen.last().0,
            seen.last().1,
        );
        assert(before.push((seen.last().0, seen.last().1)) =~= seen);
    }
}

/// The table of top talkers does not miss the loud ones. After any observations, as long
/// as they can be counted at all: it has no more entries than its capacity and none
/// twice for a tenant; the counts add up to all that was observed; no tenant's count is
/// below what was observed of it; and a tenant with more than its share, that is more
/// than an even part of all by the number of entries, has an entry.
pub proof fn law_top_talkers_are_listed(
    capacity: nat,
    seen: Seq<(TenantKey, u64)>,
    tenant: TenantKey,
)
    requires
        capacity > 0,
        total(seen) <= u64::MAX,
    ensures
        ({
            let top = observed(capacity, seen);
            &&& top.inv()
            &&& top.entries.len() <= capacity
            &&& counted(top.entries) == total(seen)
            &&& forall|i: int|
                0 <= i < top.entries.len() ==> (#[trigger] top.entries[i]).count >= share(
                    seen,
                    top.entries[i].tenant,
                )
            &&& share(seen, tenant) > total(seen) / capacity as int ==> top.tracks(tenant)
        }),
{
    lemma_observed_sound(capacity, seen);
    let top = observed(capacity, seen);
    let part = share(seen, tenant);
    if !top.tracks(tenant) {
        lemma_counted_bounds(top.entries, 0);
        if top.entries.len() < capacity {
            assert(part == 0);
            assert(total(seen) / capacity as int >= 0) by (nonlinear_arith)
                requires
                    total(seen) >= 0,
                    capacity > 0,
            ;
        } else {
            assert forall|j: int| 0 <= j < top.entries.len() implies part <= (
            #[trigger] top.entries[j]).count by {}
            lemma_counted_bounds(top.entries, part);
            let all = total(seen);
            assert(part <= all / capacity as int) by (nonlinear_arith)
                requires
                    capacity > 0,
                    capacity * part <= all,
            ;
        }
    }
}

/// What one observation does to the table. A tenant with an entry has its count raised, in
/// its place. One without takes a free entry at the end. If there is none, it takes the
/// place of the lowest entry, the first of them if several are, and goes on from the count
/// that was there. All other entries stay as they are.
pub proof fn law_observations_change_one_entry(top: TopView, tenant: TenantKey, delta: u64)
    requires
        top.inv(),
        top.capacity > 0,
    ensures
        ({
            let after = top.record(tenant, delta);
            let old_entries = top.entries;
            let new_entries = after.entries;
            &&& after.capacity == top.capacity
            &&& exists|i: int|
                {
                    &&& 0 <= i < new_entries.len()
                    &&& (#[trigger] new_entries[i]).tenant == tenant
                    &&& forall|j: int|
                        0 <= j < old_entries.len() && j != i ==> new_entries[j]
                            == #[trigger] old_entries[j]
                    &&& new_entries[i].count == if i < old_entries.len() && old_entries[i].count
                        + delta <= u64::MAX {
                        old_entries[i].count + delta
                    } else if i < old_entries.len() {
                        u64::MAX as int
                    } else {
                        delta as int
                    }
                    &&& if top.tracks(tenant) {
                        new_entries.len() == old_entries.len() && old_entries[i].tenant == tenant
                    } else if old_entries.len() < top.capacity {
                        new_entries.len() == old_entries.len() + 1 && i == old_entries.len()
                    } else {
                        &&& new_entries.len() == old_entries.len()
                        &&& forall|j: int|
                            0 <= j < old_entries.len() ==> old_entries[i].count <= (
                            #[trigger] old_entries[j]).count
                        &&& forall|j: int|
                            0 <= j < i ==> old_entries[i].count < (#[trigger] old_entries[j]).count
                    }
                }
        }),
{
    let after = top.record(tenant, delta);
    if top.tracks(tenant) {
        let i = top.slot_of(tenant);
        assert(after.entries[i].tenant == tenant);
    } else if top.entries.len() < top.capacity {
        let i = top.entries.len() as int;
        assert(after.entries[i].tenant == tenant);
    } else {
        let found = lemma_lowest(top, top.entries.len());
        assert(top.is_lowest(found));
        let i = choose|i: int| top.is_lowest(i);
        assert(top.is_lowest(i));
        assert(after.entries[i].tenant == tenant);
    }
}

/// A table without entries stays empty.
pub proof fn law_no_entries_no_talkers(seen: Seq<(TenantKey, u64)>)
    ensures
        observed(0, seen).entries.len() == 0,
        observed(0, seen).capacity == 0,
    decreases seen.len(),
{
    if seen.len() > 0 {
        law_no_entries_no_talkers(seen.drop_last());
    }
}

/// The tenants whose tasks were handed out, each counted once, in order.
pub open spec fn hand_outs<T>(start: StateView<T>, limits: Limits, steps: Seq<Step<T>>) -> Seq<
    (TenantKey, u64),
>
    decreases steps.len(),
{
    if steps.len() == 0 {
        Seq::empty()
    } else {
        let earlier = hand_outs(start, limits, steps.drop_last());
        match steps.last() {
            Step::Dequeue { now } => match laws::run(start, limits, steps.drop_last()).dequeue(
                now,
            ).1 {
                Some((t, _)) => earlier.push((TenantKey(t), 1u64)),
                None => earlier,
            },
            _ => earlier,
        }
    }
}

/// The table counts what an operation hands out, and nothing else.
proof fn lemma_step_credits<T>(s: StateView<T>, limits: Limits, step: Step<T>)
    requires
        s.inv(),
        s.within(limits),
        laws::valid(step),
    ensures
        laws::apply(s, limits, step).books.top == match step {
            Step::Dequeue { now } => credited(s.books.top, s.dequeue(now).1),
            _ => s.books.top,
        },
{
    reveal(laws::apply);
    match step {
        Step::Dequeue { now } => {
            capacity::lemma_dequeue_within(s, limits, now);
        },
        Step::Attempt { tenant, task, quantum, now } => {
            capacity::lemma_prepared_within(s, limits, tenant, quantum, now);
        },
        Step::EnqueueReject { tenant, task, quantum, now } => {
            capacity::lemma_prepared_within(s, limits, tenant, quantum, now);
        },
        Step::EnqueueDrop { tenant, task, strategy, quantum, now } => {
            capacity::lemma_prepared_within(s, limits, tenant, quantum, now);
        },
        _ => {},
    }
}

/// The scheduler's table of top talkers is that of the tenants whose tasks it has handed
/// out.
pub proof fn law_top_talkers_are_those_served<T>(
    shards: nat,
    capacity: nat,
    quanta: Map<u64, u64>,
    provider: Option<QuantumProvider>,
    limits: Limits,
    steps: Seq<Step<T>>,
)
    requires
        1 <= shards <= usize::MAX,
        laws::all_valid(steps),
    ensures
        ({
            let start = StateView::<T>::initial(shards, capacity, quanta, provider);
            laws::run(start, limits, steps).books.top == observed(
                capacity,
                hand_outs(start, limits, steps),
            )
        }),
    decreases steps.len(),
{
    let start = StateView::<T>::initial(shards, capacity, quanta, provider);
    if steps.len() > 0 {
        let before = steps.drop_last();
        assert forall|k: int| 0 <= k < before.len() implies laws::valid(#[trigger] before[k]) by {
            assert(laws::valid(steps[k]));
        }
        assert(laws::valid(steps[steps.len() - 1]));
        law_top_talkers_are_those_served(shards, capacity, quanta, provider, limits, before);
        laws::law_every_state_is_in_order(shards, capacity, quanta, provider, limits, before);
        let s = laws::run(start, limits, before);
        lemma_step_credits(s, limits, steps.last());
        let seen = hand_outs(start, limits, before);
        if let Step::Dequeue { now } = steps.last() {
            if let Some((t, entry)) = s.dequeue(now).1 {
                let more = seen.push((TenantKey(t), 1u64));
                assert(more.drop_last() =~= seen);
                assert(hand_outs(start, limits, steps) == more);
            }
        }
    }
}

} // verus!
