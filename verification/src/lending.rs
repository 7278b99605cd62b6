//! What holds of lending: a grant is exclusive and whole, a release is
//! exact, and the queue is served in order as far as it can be.

use crate::lists::{lemma_slot_below, slot_of};
use crate::pool::{fresh_pool, 
    free_before, lends, lent_before, other_than, pool_keys, stocked, PoolsView, WaiterView,
};
use crate::resource::{wanted, KeyView, ResourceView};
use vstd::prelude::*;

verus! {

/// The tickets of the requests that wait, in order.
pub open spec fn waiting(waiters: Seq<WaiterView>) -> Seq<u64> {
    waiters.map_values(|w: WaiterView| w.ticket)
}

/// A grant is exclusive: it gives an instance to the ticket only where
/// nobody held it, and leaves every other instance with its holder.
pub proof fn lemma_grant_is_exclusive(
    pools: PoolsView,
    ticket: u64,
    wants: Seq<(KeyView, nat)>,
    i: int,
    j: int,
)
    requires
        0 <= i < pools.pools.len(),
        0 <= j < pools.pools[i].holders.len(),
    ensures
        pools.grant(ticket, wants).pools[i].holders.len() == pools.pools[i].holders.len(),
        pools.grant(ticket, wants).pools[i].items == pools.pools[i].items,
        pools.grant(ticket, wants).pools[i].holders[j] == pools.pools[i].holders[j] || (
        pools.pools[i].holders[j] is None && pools.grant(ticket, wants).pools[i].holders[j] == Some(
            ticket,
        )),
{
}

/// What comes back is what the ticket held: a release frees the instances
/// of the ticket and leaves every other instance with its holder.
pub proof fn lemma_release_is_exact(pools: PoolsView, ticket: u64, i: int, j: int)
    requires
        0 <= i < pools.pools.len(),
        0 <= j < pools.pools[i].holders.len(),
    ensures
        pools.release(ticket).pools[i].holders.len() == pools.pools[i].holders.len(),
        pools.release(ticket).pools[i].items == pools.pools[i].items,
        pools.release(ticket).pools[i].holders[j] == if pools.pools[i].holders[j] == Some(ticket) {
            None
        } else {
            pools.pools[i].holders[j]
        },
{
}

/// After a grant, who holds anything held before or is the ticket.
pub proof fn lemma_grant_holds(pools: PoolsView, ticket: u64, wants: Seq<(KeyView, nat)>, other: u64)
    requires
        pools.grant(ticket, wants).holds(other),
    ensures
        pools.holds(other) || other == ticket,
{
    let after = pools.grant(ticket, wants);
    let (i, j) = choose|i: int, j: int|
        0 <= i < after.pools.len() && 0 <= j < after.pools[i].holders.len()
            && after.pools[i].holders[j] == Some(other);
    lemma_grant_is_exclusive(pools, ticket, wants, i, j);
}

/// After a release, who holds anything held before and is not the ticket.
pub proof fn lemma_release_holds(pools: PoolsView, ticket: u64, other: u64)
    requires
        pools.release(ticket).holds(other),
    ensures
        pools.holds(other),
        other != ticket,
{
    let after = pools.release(ticket);
    let (i, j) = choose|i: int, j: int|
        0 <= i < after.pools.len() && 0 <= j < after.pools[i].holders.len()
            && after.pools[i].holders[j] == Some(other);
    lemma_release_is_exact(pools, ticket, i, j);
}

/// The queue without the requests of a ticket holds, in their order, the
/// requests of the other tickets: who waits afterwards waited before and is
/// not the ticket, and no ticket waits twice where none did.
pub proof fn lemma_forget(waiters: Seq<WaiterView>, ticket: u64)
    ensures
        forall|w: WaiterView| #[trigger]
            waiters.filter(other_than(ticket)).contains(w) <==> waiters.contains(w) && w.ticket
                != ticket,
        waiting(waiters).no_duplicates() ==> waiting(
            waiters.filter(other_than(ticket)),
        ).no_duplicates(),
    decreases waiters.len(),
{
    reveal(Seq::filter);
    let kept = waiters.filter(other_than(ticket));
    if waiters.len() > 0 {
        let rest = waiters.drop_last();
        let last = waiters.last();
        lemma_forget(rest, ticket);
        let kept_rest = rest.filter(other_than(ticket));
        assert forall|w: WaiterView| #[trigger] kept.contains(w) <==> waiters.contains(w)
            && w.ticket != ticket by {
            if kept.contains(w) {
                let a = choose|a: int| 0 <= a < kept.len() && kept[a] == w;
                if a < kept_rest.len() {
                    assert(kept_rest[a] == w);
                    assert(kept_rest.contains(w));
                    let b = choose|b: int| 0 <= b < rest.len() && rest[b] == w;
                    assert(waiters[b] == w);
                } else {
                    assert(w == last);
                    assert(waiters[waiters.len() - 1] == w);
                }
            }
            if waiters.contains(w) && w.ticket != ticket {
                let b = choose|b: int| 0 <= b < waiters.len() && waiters[b] == w;
                if b < rest.len() {
                    assert(rest[b] == w);
                    assert(kept_rest.contains(w));
                    let a = choose|a: int| 0 <= a < kept_rest.len() && kept_rest[a] == w;
                    assert(kept[a] == w);
                } else {
                    assert(kept[kept.len() - 1] == w);
                }
            }
        }
        if waiting(waiters).no_duplicates() {
            assert forall|a: int, b: int|
                0 <= a < rest.len() && 0 <= b < rest.len() && a != b implies waiting(rest)[a]
                != waiting(rest)[b] by {
                assert(waiting(rest)[a] == waiting(waiters)[a]);
                assert(waiting(rest)[b] == waiting(waiters)[b]);
            }
            assert forall|a: int, b: int|
                0 <= a < kept.len() && 0 <= b < kept.len() && a != b implies waiting(kept)[a]
                != waiting(kept)[b] by {
                if a < kept_rest.len() && b < kept_rest.len() {
                    assert(waiting(kept)[a] == waiting(kept_rest)[a]);
                    assert(waiting(kept)[b] == waiting(kept_rest)[b]);
                } else {
                    let c = if a < kept_rest.len() {
                        a
                    } else {
                        b
                    };
                    assert(kept[c] == kept_rest[c]);
                    assert(kept_rest.contains(kept_rest[c]));
                    let d = choose|d: int| 0 <= d < rest.len() && rest[d] == kept_rest[c];
                    assert(waiting(waiters)[d] == kept_rest[c].ticket);
                    assert(waiting(waiters)[waiters.len() - 1] == last.ticket);
                }
            }
        }
    }
}

/// Serving the queue is fair and exclusive. What is granted goes to the
/// first in the queue, in their order, and the others go on waiting in
/// theirs; who holds anything afterwards held before or was served. And
/// the queue is served as far as it can be: afterwards nobody waits, or
/// what the first in the queue asks for is not there.
pub proof fn lemma_schedule(pools: PoolsView)
    ensures
        ({
            let (end, granted) = pools.schedule();
            &&& end.pools.len() == pools.pools.len()
            &&& granted.len() + end.waiters.len() == pools.waiters.len()
            &&& end.waiters == pools.waiters.skip(granted.len() as int)
            &&& forall|k: int|
                0 <= k < granted.len() ==> (#[trigger] granted[k]).ticket == pools.waiters[k].ticket
            &&& forall|t: u64|
                end.holds(t) ==> pools.holds(t) || exists|k: int|
                    0 <= k < granted.len() && (#[trigger] granted[k]).ticket == t
            &&& (end.waiters.len() == 0 || !end.can_grant(end.waiters[0].wants))
        }),
    decreases pools.waiters.len(),
{
    if pools.waiters.len() > 0 && pools.can_grant(pools.waiters[0].wants) {
        let head = pools.waiters[0];
        let next = PoolsView {
            pools: pools.grant(head.ticket, head.wants).pools,
            waiters: pools.waiters.remove(0),
        };
        lemma_schedule(next);
        let (end, more) = next.schedule();
        let granted = seq![pools.handle(head.ticket, head.wants)] + more;
        assert(pools.schedule() == (end, granted));
        assert(end.waiters =~= pools.waiters.skip(granted.len() as int));
        assert forall|k: int| 0 <= k < granted.len() implies (#[trigger] granted[k]).ticket
            == pools.waiters[k].ticket by {
            if k > 0 {
                assert(granted[k] == more[k - 1]);
                assert(next.waiters[k - 1] == pools.waiters[k]);
            }
        }
        assert forall|t: u64| end.holds(t) implies pools.holds(t) || exists|k: int|
            0 <= k < granted.len() && (#[trigger] granted[k]).ticket == t by {
            if next.holds(t) {
                assert(pools.grant(head.ticket, head.wants).holds(t)) by {
                    let (i, j) = choose|i: int, j: int|
                        0 <= i < next.pools.len() && 0 <= j < next.pools[i].holders.len()
                            && next.pools[i].holders[j] == Some(t);
                    assert(pools.grant(head.ticket, head.wants).pools[i].holders[j] == Some(t));
                }
                lemma_grant_holds(pools, head.ticket, head.wants, t);
                if t == head.ticket {
                    assert(granted[0].ticket == t);
                }
            } else {
                let k = choose|k: int| 0 <= k < more.len() && (#[trigger] more[k]).ticket == t;
                assert(granted[k + 1] == more[k]);
            }
        }
    } else {
        assert(pools.waiters.skip(0) =~= pools.waiters);
    }
}

/// The slots below `i` that are among the first `n` free ones, in rising order.
pub open spec fn lent_slots(holders: Seq<Option<u64>>, n: nat, i: int) -> Seq<int>
    decreases i,
{
    if i <= 0 {
        Seq::empty()
    } else if lends(holders, n, i - 1) {
        lent_slots(holders, n, i - 1).push(i - 1)
    } else {
        lent_slots(holders, n, i - 1)
    }
}

/// What is lent is the items of distinct slots that were free: as many as
/// are free, up to `n`, lowest slot first.
pub proof fn lemma_lent(items: Seq<ResourceView>, holders: Seq<Option<u64>>, n: nat, i: int)
    requires
        0 <= i <= holders.len(),
        items.len() == holders.len(),
    ensures
        lent_before(items, holders, n, i).len() == lent_slots(holders, n, i).len(),
        lent_slots(holders, n, i).len() == if free_before(holders, i) < n {
            free_before(holders, i)
        } else {
            n
        },
        forall|k: int|
            0 <= k < lent_slots(holders, n, i).len() ==> {
                let j = #[trigger] lent_slots(holders, n, i)[k];
                &&& 0 <= j < i
                &&& holders[j] is None
                &&& lends(holders, n, j)
                &&& lent_before(items, holders, n, i)[k] == items[j]
            },
        forall|a: int, b: int|
            0 <= a < b < lent_slots(holders, n, i).len() ==> lent_slots(holders, n, i)[a]
                < lent_slots(holders, n, i)[b],
    decreases i,
{
    if i > 0 {
        lemma_lent(items, holders, n, i - 1);
    }
}

/// A grant is whole: where the pools can grant a request, the handle holds
/// of each pool as many instances as the request asks of its key.
pub proof fn lemma_handle_is_whole(
    pools: PoolsView,
    ticket: u64,
    wants: Seq<(KeyView, nat)>,
    i: int,
)
    requires
        pools.can_grant(wants),
        0 <= i < pools.pools.len(),
        slot_of(pool_keys(pools.pools), pools.pools[i].key) == Some(i),
        pools.pools[i].items.len() == pools.pools[i].holders.len(),
    ensures
        pools.handle(ticket, wants).held[i].0 == pools.pools[i].key,
        pools.handle(ticket, wants).held[i].1.len() == wanted(wants, pools.pools[i].key),
{
    let pool = pools.pools[i];
    lemma_lent(pool.items, pool.holders, wanted(wants, pool.key), pool.holders.len() as int);
    assert(wanted(wants, pool.key) <= pools.available(pool.key));
}

/// In pools that were just stocked every instance is free.
pub proof fn lemma_stocked_is_free(resources: Seq<(KeyView, Seq<ResourceView>)>, n: int)
    requires
        0 <= n <= resources.len(),
    ensures
        forall|i: int, j: int|
            0 <= i < stocked(resources, n).len() && 0 <= j < stocked(
                resources,
                n,
            )[i].holders.len() ==> (#[trigger] stocked(resources, n)[i].holders[j]) is None,
        forall|i: int|
            0 <= i < stocked(resources, n).len() ==> (#[trigger] stocked(resources, n)[i]).items.len()
                == stocked(resources, n)[i].holders.len(),
    decreases n,
{
    if n > 0 {
        lemma_stocked_is_free(resources, n - 1);
        let before = stocked(resources, n - 1);
        let key = resources[n - 1].0;
        lemma_slot_below(pool_keys(before), key, before.len() as int);
    }
}

impl PoolsView {
    /// Every instance has a slot for its holder.
    pub open spec fn shaped(self) -> bool {
        forall|i: int|
            0 <= i < self.pools.len() ==> (#[trigger] self.pools[i]).items.len()
                == self.pools[i].holders.len()
    }

    /// Whether `ticket` holds an instance of `key` that is `item`.
    pub open spec fn holds_item(self, ticket: u64, key: KeyView, item: ResourceView) -> bool {
        exists|i: int, j: int|
            0 <= i < self.pools.len() && 0 <= j < self.pools[i].holders.len()
                && self.pools[i].key == key && #[trigger] self.pools[i].holders[j] == Some(ticket)
                && self.pools[i].items[j] == item
    }

    /// Whether the pools are those of `before` with other holders: the same
    /// keys and instances in the same slots.
    pub open spec fn same_stock(self, before: PoolsView) -> bool {
        &&& self.pools.len() == before.pools.len()
        &&& forall|i: int|
            0 <= i < self.pools.len() ==> (#[trigger] self.pools[i]).key == before.pools[i].key
                && self.pools[i].items == before.pools[i].items && self.pools[i].holders.len()
                == before.pools[i].holders.len()
    }

    /// Whether every instance that had a holder in `before` has it still.
    pub open spec fn keeps_holders(self, before: PoolsView) -> bool {
        forall|i: int, j: int|
            0 <= i < before.pools.len() && 0 <= j < before.pools[i].holders.len() && (
            #[trigger] before.pools[i].holders[j]) is Some ==> self.pools[i].holders[j]
                == before.pools[i].holders[j]
    }
}

/// What a handle lists is what the ticket holds after the grant: each
/// instance in the handle is an instance of the pool of its place, in a slot
/// that was free and is the ticket's now.
pub proof fn lemma_handle_is_held(
    pools: PoolsView,
    ticket: u64,
    wants: Seq<(KeyView, nat)>,
    i: int,
    m: int,
)
    requires
        pools.shaped(),
        0 <= i < pools.pools.len(),
        0 <= m < pools.handle(ticket, wants).held[i].1.len(),
    ensures
        pools.handle(ticket, wants).held[i].0 == pools.pools[i].key,
        pools.grant(ticket, wants).holds_item(
            ticket,
            pools.pools[i].key,
            pools.handle(ticket, wants).held[i].1[m],
        ),
{
    let pool = pools.pools[i];
    let n = wanted(wants, pool.key);
    lemma_lent(pool.items, pool.holders, n, pool.holders.len() as int);
    let j = lent_slots(pool.holders, n, pool.holders.len() as int)[m];
    let after = pools.grant(ticket, wants);
    assert(after.pools[i].holders[j] == Some(ticket));
    assert(after.pools[i].items[j] == pools.handle(ticket, wants).held[i].1[m]);
}

/// A grant gives the pools other holders, and takes no instance from its holder.
pub proof fn lemma_grant_keeps(pools: PoolsView, ticket: u64, wants: Seq<(KeyView, nat)>)
    ensures
        pools.grant(ticket, wants).same_stock(pools),
        pools.grant(ticket, wants).keeps_holders(pools),
        pools.shaped() ==> pools.grant(ticket, wants).shaped(),
{
}

/// A release gives the pools other holders, and takes an instance from no
/// holder but the ticket.
pub proof fn lemma_release_keeps(pools: PoolsView, ticket: u64)
    ensures
        pools.release(ticket).same_stock(pools),
        pools.shaped() ==> pools.release(ticket).shaped(),
        forall|i: int, j: int|
            0 <= i < pools.pools.len() && 0 <= j < pools.pools[i].holders.len() && (
            #[trigger] pools.pools[i].holders[j]) != Some(ticket) ==> pools.release(
                ticket,
            ).pools[i].holders[j] == pools.pools[i].holders[j],
{
}

/// Serving the queue takes no instance from its holder, and what it hands
/// out is held afterwards by whom it was handed to: each instance in a
/// handle is an instance of the pool of its place that the ticket of the
/// handle holds.
pub proof fn lemma_schedule_held(pools: PoolsView)
    requires
        pools.shaped(),
    ensures
        pools.schedule().0.same_stock(pools),
        pools.schedule().0.keeps_holders(pools),
        pools.schedule().0.shaped(),
        forall|k: int|
            0 <= k < pools.schedule().1.len() ==> (#[trigger] pools.schedule().1[k]).held.len()
                == pools.pools.len(),
        forall|k: int, i: int|
            0 <= k < pools.schedule().1.len() && 0 <= i < pools.pools.len() ==> (
            #[trigger] pools.schedule().1[k].held[i]).0 == pools.pools[i].key,
        forall|k: int, i: int, m: int|
            0 <= k < pools.schedule().1.len() && 0 <= i < pools.pools.len() && 0 <= m
                < pools.schedule().1[k].held[i].1.len() ==> pools.schedule().0.holds_item(
                pools.schedule().1[k].ticket,
                pools.pools[i].key,
                #[trigger] pools.schedule().1[k].held[i].1[m],
            ),
    decreases pools.waiters.len(),
{
    if pools.waiters.len() > 0 && pools.can_grant(pools.waiters[0].wants) {
        let head = pools.waiters[0];
        let next = PoolsView {
            pools: pools.grant(head.ticket, head.wants).pools,
            waiters: pools.waiters.remove(0),
        };
        lemma_grant_keeps(pools, head.ticket, head.wants);
        assert(next.shaped());
        assert(next.same_stock(pools));
        assert(next.keeps_holders(pools));
        lemma_schedule_held(next);
        let (end, more) = next.schedule();
        let first = pools.handle(head.ticket, head.wants);
        let granted = seq![first] + more;
        assert(pools.schedule() == (end, granted));
        assert(end.same_stock(pools));
        assert(end.keeps_holders(pools)) by {
            assert forall|i: int, j: int|
                0 <= i < pools.pools.len() && 0 <= j < pools.pools[i].holders.len() && (
                #[trigger] pools.pools[i].holders[j]) is Some implies end.pools[i].holders[j]
                == pools.pools[i].holders[j] by {
                assert(next.pools[i].holders[j] == pools.pools[i].holders[j]);
                assert(next.pools[i].holders[j] is Some);
            }
        }
        assert forall|k: int| 0 <= k < granted.len() implies (#[trigger] granted[k]).held.len()
            == pools.pools.len() by {
            if k > 0 {
                assert(granted[k] == more[k - 1]);
            }
        }
        assert forall|k: int, i: int| 0 <= k < granted.len() && 0 <= i < pools.pools.len() implies (
        #[trigger] granted[k].held[i]).0 == pools.pools[i].key by {
            if k > 0 {
                assert(granted[k] == more[k - 1]);
                assert(next.pools[i].key == pools.pools[i].key);
            }
        }
        assert forall|k: int, i: int, m: int|
            0 <= k < granted.len() && 0 <= i < pools.pools.len() && 0 <= m
                < granted[k].held[i].1.len() implies end.holds_item(
            granted[k].ticket,
            pools.pools[i].key,
            #[trigger] granted[k].held[i].1[m],
        ) by {
            if k == 0 {
                lemma_handle_is_held(pools, head.ticket, head.wants, i, m);
                let item = first.held[i].1[m];
                let after = pools.grant(head.ticket, head.wants);
                let (a, b) = choose|a: int, b: int|
                    0 <= a < after.pools.len() && 0 <= b < after.pools[a].holders.len()
                        && after.pools[a].key == pools.pools[i].key
                        && #[trigger] after.pools[a].holders[b] == Some(head.ticket)
                        && after.pools[a].items[b] == item;
                assert(next.pools[a].holders[b] is Some);
                assert(end.pools[a].holders[b] == Some(head.ticket));
                assert(end.pools[a].key == pools.pools[i].key);
                assert(end.pools[a].items[b] == item);
            } else {
                assert(granted[k] == more[k - 1]);
                assert(next.pools[i].key == pools.pools[i].key);
                let item = more[k - 1].held[i].1[m];
                assert(end.holds_item(more[k - 1].ticket, next.pools[i].key, item));
            }
        }
        assert(pools.schedule().1 == granted);
        assert(pools.schedule().0 == end);
    } else {
        assert(pools.schedule().1.len() == 0);
    }
}

/// Pools that were just stocked have one pool for a key, not two.
pub proof fn lemma_stocked_keys(resources: Seq<(KeyView, Seq<ResourceView>)>, n: int)
    requires
        0 <= n <= resources.len(),
    ensures
        pool_keys(stocked(resources, n)).no_duplicates(),
    decreases n,
{
    if n > 0 {
        lemma_stocked_keys(resources, n - 1);
        let before = stocked(resources, n - 1);
        let key = resources[n - 1].0;
        let after = stocked(resources, n);
        lemma_slot_below(pool_keys(before), key, before.len() as int);
        match slot_of(pool_keys(before), key) {
            Some(i) => {
                assert(pool_keys(after) =~= pool_keys(before));
            },
            None => {
                assert(pool_keys(after) =~= pool_keys(before).push(key));
            },
        }
    }
}

/// In pools that were just stocked, the pool of the key that came last is
/// the fresh pool of what came with it.
pub proof fn lemma_stocked_last(resources: Seq<(KeyView, Seq<ResourceView>)>, n: int, a: int)
    requires
        0 < n <= resources.len(),
        0 <= a < stocked(resources, n).len(),
        stocked(resources, n)[a].key == resources[n - 1].0,
    ensures
        stocked(resources, n)[a] == fresh_pool(resources[n - 1].0, resources[n - 1].1),
{
    lemma_stocked_keys(resources, n);
    let before = stocked(resources, n - 1);
    let key = resources[n - 1].0;
    let after = stocked(resources, n);
    lemma_slot_below(pool_keys(before), key, before.len() as int);
    match slot_of(pool_keys(before), key) {
        Some(i) => {
            assert(pool_keys(after)[i] == key);
            assert(pool_keys(after)[a] == key);
        },
        None => {
            if a < before.len() {
                assert(pool_keys(before)[a] == key);
            }
        },
    }
}

} // verus!
