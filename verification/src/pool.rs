//! Pools of resources. All that a job needs is asked for at once and granted
//! at once, or the job waits for its turn in a queue that is served in order.

use crate::lists::{lemma_slot_below, slot_below, slot_of, views};
use crate::resource::{
    text, want_keys, wanted, wanted_count, wants_view, KeyView, Resource, ResourceKey,
    ResourceView,
};
use vstd::prelude::*;

verus! {

/// How many of the first `i` slots are free.
pub open spec fn free_before(holders: Seq<Option<u64>>, i: int) -> nat
    decreases i,
{
    if i <= 0 {
        0
    } else {
        free_before(holders, i - 1) + if holders[i - 1] is None {
            1nat
        } else {
            0nat
        }
    }
}

/// Whether slot `i` is among the first `n` free slots.
pub open spec fn lends(holders: Seq<Option<u64>>, n: nat, i: int) -> bool {
    0 <= i < holders.len() && holders[i] is None && free_before(holders, i) < n
}

/// The items of the slots below `i` that are among the first `n` free ones.
pub open spec fn lent_before(
    items: Seq<ResourceView>,
    holders: Seq<Option<u64>>,
    n: nat,
    i: int,
) -> Seq<ResourceView>
    decreases i,
{
    if i <= 0 {
        Seq::empty()
    } else if lends(holders, n, i - 1) {
        lent_before(items, holders, n, i - 1).push(items[i - 1])
    } else {
        lent_before(items, holders, n, i - 1)
    }
}

/// What a [`Pool`] is in contracts: the instances of one key, and for each
/// the ticket of the job that holds it.
pub struct PoolView {
    pub key: KeyView,
    pub items: Seq<ResourceView>,
    pub holders: Seq<Option<u64>>,
}

impl PoolView {
    /// How many instances nobody holds.
    pub open spec fn free(self) -> nat {
        free_before(self.holders, self.holders.len() as int)
    }

    /// The pool after its first `n` free instances went to `ticket`.
    pub open spec fn lend(self, n: nat, ticket: u64) -> PoolView {
        PoolView {
            holders: Seq::new(
                self.holders.len(),
                |i: int|
                    if lends(self.holders, n, i) {
                        Some(ticket)
                    } else {
                        self.holders[i]
                    },
            ),
            ..self
        }
    }

    /// The first `n` free instances, lowest slot first.
    pub open spec fn lent(self, n: nat) -> Seq<ResourceView> {
        lent_before(self.items, self.holders, n, self.holders.len() as int)
    }

    /// The pool after `ticket` gave back all it held.
    pub open spec fn release(self, ticket: u64) -> PoolView {
        PoolView {
            holders: Seq::new(
                self.holders.len(),
                |i: int|
                    if self.holders[i] == Some(ticket) {
                        None
                    } else {
                        self.holders[i]
                    },
            ),
            ..self
        }
    }
}

/// The instances of one key. An instance never leaves its slot: lending it
/// writes the borrower's ticket beside it.
pub struct Pool {
    key: ResourceKey,
    items: Vec<Resource>,
    holders: Vec<Option<u64>>,
}

impl View for Pool {
    type V = PoolView;

    closed spec fn view(&self) -> PoolView {
        PoolView { key: self.key@, items: views(self.items@), holders: self.holders@ }
    }
}

impl Pool {
    /// Every instance has a slot for its holder.
    pub closed spec fn wf(&self) -> bool {
        self.items@.len() == self.holders@.len()
    }

    /// A pool of `items`, all free.
    pub fn new(key: ResourceKey, items: Vec<Resource>) -> (pool: Pool)
        ensures
            pool.wf(),
            pool@.key == key@,
            pool@.items == views(items@),
            pool@.holders == Seq::new(items@.len(), |i: int| None::<u64>),
    {
        let mut holders: Vec<Option<u64>> = Vec::new();
        let mut i: usize = 0;
        while i < items.len()
            invariant
                i <= items.len(),
                holders@ == Seq::new(i as nat, |j: int| None::<u64>),
            decreases items.len() - i,
        {
            holders.push(None);
            i += 1;
            assert(holders@ =~= Seq::new(i as nat, |j: int| None::<u64>));
        }
        Pool { key, items, holders }
    }

    /// How many instances nobody holds.
    pub fn free(&self) -> (n: usize)
        requires
            self.wf(),
        ensures
            n == self@.free(),
    {
        let mut n: usize = 0;
        let mut i: usize = 0;
        while i < self.holders.len()
            invariant
                i <= self.holders.len(),
                n == free_before(self.holders@, i as int),
                n <= i,
            decreases self.holders.len() - i,
        {
            if self.holders[i].is_none() {
                n += 1;
            }
            i += 1;
        }
        n
    }

    /// Lends the first `n` free instances to `ticket` and hands out copies of them.
    pub fn lend(&mut self, n: usize, ticket: u64) -> (lent: Vec<Resource>)
        requires
            old(self).wf(),
        ensures
            final(self).wf(),
            final(self)@ == old(self)@.lend(n as nat, ticket),
            views(lent@) == old(self)@.lent(n as nat),
    {
        let ghost before = self.holders@;
        let mut lent: Vec<Resource> = Vec::new();
        let mut taken: usize = 0;
        let mut i: usize = 0;
        while i < self.holders.len()
            invariant
                i <= self.holders.len(),
                self.holders@.len() == before.len(),
                self.items == old(self).items,
                self.key == old(self).key,
                self.items@.len() == before.len(),
                taken <= i,
                taken == free_before(before, i as int),
                forall|j: int|
                    0 <= j < i ==> self.holders@[j] == if lends(before, n as nat, j) {
                        Some(ticket)
                    } else {
                        before[j]
                    },
                forall|j: int| i <= j < before.len() ==> self.holders@[j] == before[j],
                views(lent@) == lent_before(views(self.items@), before, n as nat, i as int),
            decreases self.holders.len() - i,
        {
            if self.holders[i].is_none() {
                if taken < n {
                    self.holders.set(i, Some(ticket));
                    lent.push(self.items[i].clone());
                    assert(views(lent@) =~= lent_before(
                        views(self.items@),
                        before,
                        n as nat,
                        i as int,
                    ).push(views(self.items@)[i as int]));
                }
                taken += 1;
            }
            i += 1;
        }
        assert(self.holders@ =~= old(self)@.lend(n as nat, ticket).holders);
        lent
    }

    /// Takes back whatever `ticket` holds.
    pub fn release(&mut self, ticket: u64)
        requires
            old(self).wf(),
        ensures
            final(self).wf(),
            final(self)@ == old(self)@.release(ticket),
    {
        let ghost before = self.holders@;
        let mut i: usize = 0;
        while i < self.holders.len()
            invariant
                i <= self.holders.len(),
                self.holders@.len() == before.len(),
                self.items == old(self).items,
                self.key == old(self).key,
                forall|j: int|
                    0 <= j < i ==> self.holders@[j] == if before[j] == Some(ticket) {
                        None
                    } else {
                        before[j]
                    },
                forall|j: int| i <= j < before.len() ==> self.holders@[j] == before[j],
            decreases self.holders.len() - i,
        {
            let mine = match self.holders[i] {
                Some(t) => t == ticket,
                None => false,
            };
            if mine {
                self.holders.set(i, None);
            }
            i += 1;
        }
        assert(self.holders@ =~= old(self)@.release(ticket).holders);
    }
}

/// What a handle is in contracts: its ticket and, for each pool, the
/// instances that it holds of it.
pub struct ResourcesView {
    pub ticket: u64,
    pub held: Seq<(KeyView, Seq<ResourceView>)>,
}

/// The keys of what a handle holds, in order.
pub open spec fn held_keys(held: Seq<(KeyView, Seq<ResourceView>)>) -> Seq<KeyView> {
    held.map_values(|h: (KeyView, Seq<ResourceView>)| h.0)
}

impl ResourcesView {
    /// The instances of `key` in the handle; none where it holds none.
    pub open spec fn of(self, key: KeyView) -> Seq<ResourceView> {
        match slot_of(held_keys(self.held), key) {
            Some(i) => self.held[i].1,
            None => Seq::empty(),
        }
    }
}

/// What a job was granted. Handing it back to the pools frees the instances.
#[derive(Debug)]
pub struct Resources {
    ticket: u64,
    held: Vec<(ResourceKey, Vec<Resource>)>,
}

/// What is held, in contracts.
pub open spec fn held_view(held: Seq<(ResourceKey, Vec<Resource>)>) -> Seq<
    (KeyView, Seq<ResourceView>),
> {
    held.map_values(|h: (ResourceKey, Vec<Resource>)| (h.0@, views(h.1@)))
}

impl View for Resources {
    type V = ResourcesView;

    closed spec fn view(&self) -> ResourcesView {
        ResourcesView { ticket: self.ticket, held: held_view(self.held@) }
    }
}

impl Resources {
    /// The ticket of the job that holds this.
    pub fn ticket(&self) -> (t: u64)
        ensures
            t == self@.ticket,
    {
        self.ticket
    }

    /// The instances of `key` that the job holds, where it holds any.
    pub fn resources(&self, key: &ResourceKey) -> (found: Option<&Vec<Resource>>)
        ensures
            match found {
                Some(items) => self@.of(key@).len() > 0 && views(items@) == self@.of(key@),
                None => self@.of(key@).len() == 0,
            },
    {
        let ghost keys = held_keys(held_view(self.held@));
        let mut found: Option<usize> = None;
        let mut i: usize = 0;
        while i < self.held.len()
            invariant
                i <= self.held.len(),
                keys == held_keys(held_view(self.held@)),
                match slot_below(keys, key@, i as int) {
                    Some(j) => found == Some(j as usize) && 0 <= j < i,
                    None => found is None,
                },
            decreases self.held.len() - i,
        {
            if self.held[i].0.same(key) {
                found = Some(i);
            }
            i += 1;
        }
        match found {
            Some(j) => {
                if self.held[j].1.len() > 0 {
                    Some(&self.held[j].1)
                } else {
                    None
                }
            },
            None => None,
        }
    }
}

/// A request that waits for its turn.
pub struct WaiterView {
    pub ticket: u64,
    pub wants: Seq<(KeyView, nat)>,
}

/// What [`Pools`] is in contracts: the pools, and the requests that wait, the
/// oldest first.
pub struct PoolsView {
    pub pools: Seq<PoolView>,
    pub waiters: Seq<WaiterView>,
}

/// Holds of the requests that are not those of `ticket`.
pub open spec fn other_than(ticket: u64) -> spec_fn(WaiterView) -> bool {
    |w: WaiterView| w.ticket != ticket
}

/// The keys of the pools, in order.
pub open spec fn pool_keys(pools: Seq<PoolView>) -> Seq<KeyView> {
    pools.map_values(|p: PoolView| p.key)
}

impl PoolsView {
    /// How many instances of `key` are free.
    pub open spec fn available(self, key: KeyView) -> nat {
        match slot_of(pool_keys(self.pools), key) {
            Some(i) => self.pools[i].free(),
            None => 0,
        }
    }

    /// Whether every key of the request has as many free instances as it asks for.
    pub open spec fn can_grant(self, wants: Seq<(KeyView, nat)>) -> bool {
        forall|key: KeyView| wanted(wants, key) <= self.available(key)
    }

    /// The pools after each lent `ticket` what `wants` asks of it.
    pub open spec fn grant(self, ticket: u64, wants: Seq<(KeyView, nat)>) -> PoolsView {
        PoolsView {
            pools: Seq::new(
                self.pools.len(),
                |i: int| self.pools[i].lend(wanted(wants, self.pools[i].key), ticket),
            ),
            ..self
        }
    }

    /// The handle that such a grant hands out: for each pool, in order, the
    /// instances that it lent.
    pub open spec fn handle(self, ticket: u64, wants: Seq<(KeyView, nat)>) -> ResourcesView {
        ResourcesView {
            ticket,
            held: Seq::new(
                self.pools.len(),
                |i: int| (self.pools[i].key, self.pools[i].lent(wanted(wants, self.pools[i].key))),
            ),
        }
    }

    /// The pools after `ticket` gave back all it held.
    pub open spec fn release(self, ticket: u64) -> PoolsView {
        PoolsView {
            pools: Seq::new(self.pools.len(), |i: int| self.pools[i].release(ticket)),
            ..self
        }
    }

    /// Serves the queue in order for as long as its head can be granted. A
    /// head that cannot be granted keeps everything behind it waiting.
    pub open spec fn schedule(self) -> (PoolsView, Seq<ResourcesView>)
        decreases self.waiters.len(),
    {
        if self.waiters.len() > 0 && self.can_grant(self.waiters[0].wants) {
            let head = self.waiters[0];
            let next = PoolsView {
                pools: self.grant(head.ticket, head.wants).pools,
                waiters: self.waiters.remove(0),
            };
            let (end, granted) = next.schedule();
            (end, seq![self.handle(head.ticket, head.wants)] + granted)
        } else {
            (self, Seq::empty())
        }
    }

    /// A request arrives. It is granted at once where nobody waits and the
    /// pools have what it asks for; else it joins the end of the queue.
    pub open spec fn get(self, ticket: u64, wants: Seq<(KeyView, nat)>) -> (
        PoolsView,
        Option<ResourcesView>,
    ) {
        if self.waiters.len() == 0 && self.can_grant(wants) {
            (self.grant(ticket, wants), Some(self.handle(ticket, wants)))
        } else {
            (PoolsView { waiters: self.waiters.push(WaiterView { ticket, wants }), ..self }, None)
        }
    }

    /// A handle comes back, and the queue is served.
    pub open spec fn put(self, ticket: u64) -> (PoolsView, Seq<ResourcesView>) {
        self.release(ticket).schedule()
    }

    /// The queue without the requests of `ticket`.
    pub open spec fn forget(self, ticket: u64) -> PoolsView {
        PoolsView {
            waiters: self.waiters.filter(other_than(ticket)),
            ..self
        }
    }

    /// A request is withdrawn, and the queue is served.
    pub open spec fn cancel(self, ticket: u64) -> (PoolsView, Seq<ResourcesView>) {
        self.forget(ticket).schedule()
    }

    /// A job is over: its requests are withdrawn, what it holds comes back,
    /// and the queue is served.
    pub open spec fn leave(self, ticket: u64) -> (PoolsView, Seq<ResourcesView>) {
        self.forget(ticket).release(ticket).schedule()
    }

    /// Whether `ticket` waits in the queue.
    pub open spec fn waits(self, ticket: u64) -> bool {
        exists|i: int| 0 <= i < self.waiters.len() && self.waiters[i].ticket == ticket
    }

    /// Whether `ticket` holds an instance.
    pub open spec fn holds(self, ticket: u64) -> bool {
        exists|i: int, j: int|
            0 <= i < self.pools.len() && 0 <= j < self.pools[i].holders.len()
                && self.pools[i].holders[j] == Some(ticket)
    }
}

/// A pool of `items` that nobody holds.
pub open spec fn fresh_pool(key: KeyView, items: Seq<ResourceView>) -> PoolView {
    PoolView { key, items, holders: Seq::new(items.len(), |i: int| None::<u64>) }
}

/// The pools with a fresh pool for `key`, in the place of the one that they
/// had for it or else behind them all.
pub open spec fn with_pool(pools: Seq<PoolView>, key: KeyView, items: Seq<ResourceView>) -> Seq<
    PoolView,
> {
    match slot_of(pool_keys(pools), key) {
        Some(i) => pools.update(i, fresh_pool(key, items)),
        None => pools.push(fresh_pool(key, items)),
    }
}

/// The pools that the first `n` entries of `resources` make, as a map filled
/// in order makes them: a later entry for a key replaces an earlier one.
pub open spec fn stocked(resources: Seq<(KeyView, Seq<ResourceView>)>, n: int) -> Seq<PoolView>
    decreases n,
{
    if n <= 0 {
        Seq::empty()
    } else {
        with_pool(stocked(resources, n - 1), resources[n - 1].0, resources[n - 1].1)
    }
}

/// A request that waits.
struct Waiter {
    ticket: u64,
    wants: Vec<(ResourceKey, usize)>,
}

impl View for Waiter {
    type V = WaiterView;

    closed spec fn view(&self) -> WaiterView {
        WaiterView { ticket: self.ticket, wants: wants_view(self.wants@) }
    }
}

/// The pools of all keys, with the queue of the requests that wait for them.
pub struct Pools {
    pools: Vec<Pool>,
    waiters: Vec<Waiter>,
}

impl View for Pools {
    type V = PoolsView;

    closed spec fn view(&self) -> PoolsView {
        PoolsView { pools: views(self.pools@), waiters: views(self.waiters@) }
    }
}

impl Pools {
    /// Every pool is well formed.
    pub closed spec fn wf(&self) -> bool {
        forall|i: int| 0 <= i < self.pools@.len() ==> (#[trigger] self.pools@[i]).wf()
    }

    /// No pools and nobody waiting.
    pub fn empty() -> (pools: Pools)
        ensures
            pools.wf(),
            pools@.pools.len() == 0,
            pools@.waiters.len() == 0,
    {
        Pools { pools: Vec::new(), waiters: Vec::new() }
    }

    /// How many instances of `key` are free.
    pub fn available(&self, key: &ResourceKey) -> (n: usize)
        requires
            self.wf(),
        ensures
            n == self@.available(key@),
    {
        let ghost keys = pool_keys(self@.pools);
        let mut found: Option<usize> = None;
        let mut i: usize = 0;
        while i < self.pools.len()
            invariant
                i <= self.pools.len(),
                keys == pool_keys(self@.pools),
                match slot_below(keys, key@, i as int) {
                    Some(j) => found == Some(j as usize) && 0 <= j < i,
                    None => found is None,
                },
            decreases self.pools.len() - i,
        {
            if self.pools[i].key.same(key) {
                found = Some(i);
            }
            i += 1;
        }
        match found {
            Some(j) => self.pools[j].free(),
            None => 0,
        }
    }

    /// Whether the pools have, for every key, what `wants` asks for.
    pub fn can_grant(&self, wants: &Vec<(ResourceKey, usize)>) -> (ok: bool)
        requires
            self.wf(),
        ensures
            ok == self@.can_grant(wants_view(wants@)),
    {
        let ghost wv = wants_view(wants@);
        let mut i: usize = 0;
        while i < wants.len()
            invariant
                i <= wants.len(),
                self.wf(),
                wv == wants_view(wants@),
                forall|j: int| 0 <= j < i ==> wanted(wv, wv[j].0) <= self@.available(wv[j].0),
            decreases wants.len() - i,
        {
            let n = wanted_count(wants, &wants[i].0);
            let a = self.available(&wants[i].0);
            if n > a {
                return false;
            }
            i += 1;
        }
        proof {
            assert forall|key: KeyView| wanted(wv, key) <= self@.available(key) by {
                lemma_slot_below(want_keys(wv), key, wv.len() as int);
            }
        }
        true
    }

    /// Lends `ticket` what `wants` asks for, from every pool.
    fn grant(&mut self, ticket: u64, wants: &Vec<(ResourceKey, usize)>) -> (handle: Resources)
        requires
            old(self).wf(),
        ensures
            final(self).wf(),
            final(self)@.pools == old(self)@.grant(ticket, wants_view(wants@)).pools,
            final(self).waiters == old(self).waiters,
            handle@ == old(self)@.handle(ticket, wants_view(wants@)),
    {
        let ghost before = self@.pools;
        let ghost wv = wants_view(wants@);
        let mut held: Vec<(ResourceKey, Vec<Resource>)> = Vec::new();
        let mut i: usize = 0;
        while i < self.pools.len()
            invariant
                i <= self.pools.len(),
                self.wf(),
                self.waiters == old(self).waiters,
                self.pools@.len() == before.len(),
                before == old(self)@.pools,
                wv == wants_view(wants@),
                held@.len() == i,
                forall|j: int|
                    0 <= j < i ==> (#[trigger] self.pools@[j])@ == before[j].lend(
                        wanted(wv, before[j].key),
                        ticket,
                    ),
                forall|j: int| i <= j < before.len() ==> (#[trigger] self.pools@[j])@ == before[j],
                forall|j: int|
                    0 <= j < i ==> (#[trigger] held_view(held@)[j]) == (
                        before[j].key,
                        before[j].lent(wanted(wv, before[j].key)),
                    ),
            decreases self.pools.len() - i,
        {
            let key = self.pools[i].key.clone();
            let n = wanted_count(wants, &key);
            let lent = self.pools[i].lend(n, ticket);
            let ghost prev = held_view(held@);
            let ghost entry = (key@, views(lent@));
            held.push((key, lent));
            assert(held_view(held@) =~= prev.push(entry));
            i += 1;
        }
        assert(self@.pools =~= old(self)@.grant(ticket, wv).pools);
        assert(held_view(held@) =~= old(self)@.handle(ticket, wv).held);
        Resources { ticket, held }
    }

    /// Takes back, in every pool, whatever `ticket` holds.
    fn release(&mut self, ticket: u64)
        requires
            old(self).wf(),
        ensures
            final(self).wf(),
            final(self)@ == old(self)@.release(ticket),
    {
        let ghost before = self@.pools;
        let mut i: usize = 0;
        while i < self.pools.len()
            invariant
                i <= self.pools.len(),
                self.wf(),
                self.waiters == old(self).waiters,
                self.pools@.len() == before.len(),
                before == old(self)@.pools,
                forall|j: int|
                    0 <= j < i ==> (#[trigger] self.pools@[j])@ == before[j].release(ticket),
                forall|j: int| i <= j < before.len() ==> (#[trigger] self.pools@[j])@ == before[j],
            decreases self.pools.len() - i,
        {
            self.pools[i].release(ticket);
            i += 1;
        }
        assert(self@.pools =~= old(self)@.release(ticket).pools);
    }

    /// Serves the queue for as long as its head can be granted.
    fn serve(&mut self) -> (granted: Vec<Resources>)
        requires
            old(self).wf(),
        ensures
            final(self).wf(),
            (final(self)@, views(granted@)) == old(self)@.schedule(),
    {
        let mut granted: Vec<Resources> = Vec::new();
        while self.waiters.len() > 0 && self.can_grant(&self.waiters[0].wants)
            invariant
                self.wf(),
                old(self)@.schedule() == (
                    self@.schedule().0,
                    views(granted@) + self@.schedule().1,
                ),
            decreases self.waiters.len(),
        {
            let ghost now = self@;
            let ghost so_far = views(granted@);
            let waiter = self.waiters.remove(0);
            let handle = self.grant(waiter.ticket, &waiter.wants);
            granted.push(handle);
            proof {
                let head = now.waiters[0];
                assert(head == waiter@);
                let next = PoolsView {
                    pools: now.grant(head.ticket, head.wants).pools,
                    waiters: now.waiters.remove(0),
                };
                assert(self@.waiters =~= next.waiters);
                assert(self@ == next);
                assert(views(granted@) =~= so_far.push(now.handle(head.ticket, head.wants)));
                assert(views(granted@) + self@.schedule().1 =~= so_far + now.schedule().1);
            }
        }
        assert(views(granted@) + self@.schedule().1 =~= views(granted@));
        granted
    }

    /// Asks for `wants` on behalf of `ticket`. The handle comes back at once
    /// where nobody waits and the pools have it all; else the request joins
    /// the queue and a later `put` or `cancel` hands the handle out.
    pub fn get(&mut self, ticket: u64, wants: &Vec<(ResourceKey, usize)>) -> (handle: Option<
        Resources,
    >)
        requires
            old(self).wf(),
        ensures
            final(self).wf(),
            final(self)@ == old(self)@.get(ticket, wants_view(wants@)).0,
            match handle {
                Some(h) => old(self)@.get(ticket, wants_view(wants@)).1 == Some(h@),
                None => old(self)@.get(ticket, wants_view(wants@)).1 is None,
            },
    {
        if self.waiters.len() == 0 && self.can_grant(wants) {
            let handle = self.grant(ticket, wants);
            assert(self@.waiters =~= old(self)@.waiters);
            Some(handle)
        } else {
            let mut copy: Vec<(ResourceKey, usize)> = Vec::new();
            let mut i: usize = 0;
            while i < wants.len()
                invariant
                    i <= wants.len(),
                    copy@.len() == i,
                    forall|j: int| 0 <= j < i ==> copy@[j] == wants@[j],
                decreases wants.len() - i,
            {
                copy.push((wants[i].0.clone(), wants[i].1));
                i += 1;
            }
            assert(wants_view(copy@) =~= wants_view(wants@));
            let waiter = Waiter { ticket, wants: copy };
            let ghost before = views(self.waiters@);
            self.waiters.push(waiter);
            assert(views(self.waiters@) =~= before.push(
                WaiterView { ticket, wants: wants_view(wants@) },
            ));
            None
        }
    }

    /// Takes a handle back and serves the queue. Returns the handles of the
    /// requests that were granted by it, the oldest first.
    pub fn put(&mut self, handle: Resources) -> (granted: Vec<Resources>)
        requires
            old(self).wf(),
        ensures
            final(self).wf(),
            (final(self)@, views(granted@)) == old(self)@.put(handle@.ticket),
    {
        self.release(handle.ticket);
        self.serve()
    }

    /// Withdraws the requests of `ticket` and serves the queue. Returns the
    /// handles of the requests that were granted by it, the oldest first.
    pub fn cancel(&mut self, ticket: u64) -> (granted: Vec<Resources>)
        requires
            old(self).wf(),
        ensures
            final(self).wf(),
            (final(self)@, views(granted@)) == old(self)@.cancel(ticket),
    {
        self.forget(ticket);
        self.serve()
    }

    /// Withdraws the requests of `ticket`, takes back what it holds, and
    /// serves the queue. Returns the handles of the requests that were
    /// granted by it, the oldest first.
    pub fn leave(&mut self, ticket: u64) -> (granted: Vec<Resources>)
        requires
            old(self).wf(),
        ensures
            final(self).wf(),
            (final(self)@, views(granted@)) == old(self)@.leave(ticket),
    {
        self.forget(ticket);
        self.release(ticket);
        self.serve()
    }

    /// Takes the requests of `ticket` out of the queue. The queue is not
    /// served: nothing is granted by this.
    pub fn forget(&mut self, ticket: u64)
        requires
            old(self).wf(),
        ensures
            final(self).wf(),
            final(self)@ == old(self)@.forget(ticket),
    {
        let ghost before = views(self.waiters@);
        let ghost keep = other_than(ticket);
        let mut rest: Vec<Waiter> = Vec::new();
        std::mem::swap(&mut self.waiters, &mut rest);
        let ghost mut k: int = 0;
        assert(before.take(0) =~= Seq::<WaiterView>::empty());
        assert(before.skip(0) =~= before);
        assert(views(self.waiters@) =~= Seq::<WaiterView>::empty());
        assert(Seq::<WaiterView>::empty().filter(keep) =~= Seq::<WaiterView>::empty()) by {
            reveal(Seq::filter);
        }
        while rest.len() > 0
            invariant
                self.wf(),
                self.pools == old(self).pools,
                0 <= k <= before.len(),
                keep == other_than(ticket),
                views(rest@) == before.skip(k),
                views(self.waiters@) == before.take(k).filter(keep),
            decreases rest.len(),
        {
            let ghost queued = views(self.waiters@);
            let ghost waiting = rest@;
            assert(views(waiting).len() == before.skip(k).len());
            assert(k < before.len());
            let waiter = rest.remove(0);
            proof {
                assert(rest@ =~= waiting.skip(1));
                assert(views(rest@) =~= views(waiting).skip(1));
                assert(views(rest@) =~= before.skip(k + 1));
                assert(waiter@ == views(waiting)[0]);
                assert(waiter@ == before.skip(k)[0]);
                assert(waiter@ == before[k]);
                assert(keep(before[k]) == (waiter.ticket != ticket));
                assert(before.take(k + 1) =~= before.take(k).push(before[k]));
                before.take(k).lemma_filter_push(before[k], keep);
            }
            if waiter.ticket != ticket {
                self.waiters.push(waiter);
                assert(views(self.waiters@) =~= queued.push(before[k]));
            }
            proof {
                k = k + 1;
            }
        }
        assert(before.take(k) =~= before);
        assert(self@ == old(self)@.forget(ticket));
    }

    /// Puts a fresh pool for `key` in the place of the one for that key, or
    /// behind all pools where there is none.
    fn insert(&mut self, key: ResourceKey, items: Vec<Resource>)
        requires
            old(self).wf(),
        ensures
            final(self).wf(),
            final(self)@.pools == with_pool(old(self)@.pools, key@, views(items@)),
            final(self)@.waiters == old(self)@.waiters,
    {
        let ghost keys = pool_keys(self@.pools);
        let ghost before = self@.pools;
        let mut found: Option<usize> = None;
        let mut i: usize = 0;
        while i < self.pools.len()
            invariant
                i <= self.pools.len(),
                keys == pool_keys(self@.pools),
                match slot_below(keys, key@, i as int) {
                    Some(j) => found == Some(j as usize) && 0 <= j < i,
                    None => found is None,
                },
            decreases self.pools.len() - i,
        {
            if self.pools[i].key.same(&key) {
                found = Some(i);
            }
            i += 1;
        }
        let pool = Pool::new(key, items);
        assert(pool@ == fresh_pool(key@, views(items@)));
        match found {
            Some(j) => {
                self.pools.set(j, pool);
                assert(views(self.pools@) =~= before.update(j as int, pool@));
            },
            None => {
                self.pools.push(pool);
                assert(views(self.pools@) =~= before.push(pool@));
            },
        }
    }

    /// The pools of `resources`, all instances free and nobody waiting. Of two
    /// entries for one key the later one counts.
    pub fn new(resources: Vec<(ResourceKey, Vec<Resource>)>) -> (pools: Pools)
        ensures
            pools.wf(),
            pools@.pools == stocked(held_view(resources@), resources@.len() as int),
            pools@.waiters.len() == 0,
    {
        let ghost all = held_view(resources@);
        let mut pools = Pools::empty();
        let mut rest = resources;
        let ghost mut k: int = 0;
        assert(pools@.pools =~= stocked(all, 0));
        assert(held_view(rest@) =~= all.skip(0));
        while rest.len() > 0
            invariant
                pools.wf(),
                0 <= k <= all.len(),
                held_view(rest@) == all.skip(k),
                pools@.pools == stocked(all, k),
                pools@.waiters.len() == 0,
            decreases rest.len(),
        {
            let ghost left = rest@;
            assert(held_view(left).len() == all.skip(k).len());
            let entry = rest.remove(0);
            proof {
                assert(rest@ =~= left.skip(1));
                assert(held_view(rest@) =~= held_view(left).skip(1));
                assert(held_view(rest@) =~= all.skip(k + 1));
                assert((entry.0@, views(entry.1@)) == held_view(left)[0]);
                assert(held_view(left)[0] == all[k]);
            }
            pools.insert(entry.0, entry.1);
            proof {
                k = k + 1;
            }
        }
        assert(held_view(rest@).len() == 0);
        pools
    }
}

/// For each user-defined resource among the first `i` entries of `held`, in
/// order, its name and the tokens held of it.
pub open spec fn tokens_below(held: Seq<(KeyView, Seq<ResourceView>)>, i: int) -> Seq<
    (Seq<char>, Seq<Seq<char>>),
>
    decreases i,
{
    if i <= 0 {
        Seq::empty()
    } else {
        match held[i - 1].0 {
            KeyView::UserToken(name) => tokens_below(held, i - 1).push(
                (name, held[i - 1].1.map_values(|r: ResourceView| text(r))),
            ),
            KeyView::Worktree => tokens_below(held, i - 1),
        }
    }
}

/// Names with their lists of tokens, in contracts.
pub open spec fn token_lists(lists: Seq<(String, Vec<String>)>) -> Seq<
    (Seq<char>, Seq<Seq<char>>),
> {
    lists.map_values(|l: (String, Vec<String>)| (l.0@, views(l.1@)))
}

impl ResourcesView {
    /// For each user-defined resource of the handle, in order, its name and
    /// the tokens held of it.
    pub open spec fn tokens(self) -> Seq<(Seq<char>, Seq<Seq<char>>)> {
        tokens_below(self.held, self.held.len() as int)
    }
}

impl Resources {
    /// For each user-defined resource of the handle, in order, its name and
    /// the tokens held of it.
    pub fn tokens(&self) -> (lists: Vec<(String, Vec<String>)>)
        ensures
            token_lists(lists@) == self@.tokens(),
    {
        let ghost held = held_view(self.held@);
        let mut lists: Vec<(String, Vec<String>)> = Vec::new();
        let mut i: usize = 0;
        assert(token_lists(lists@) =~= tokens_below(held, 0));
        while i < self.held.len()
            invariant
                i <= self.held.len(),
                held == held_view(self.held@),
                token_lists(lists@) == tokens_below(held, i as int),
            decreases self.held.len() - i,
        {
            match &self.held[i].0 {
                ResourceKey::UserToken(name) => {
                    let items = &self.held[i].1;
                    let ghost texts = held[i as int].1.map_values(|r: ResourceView| text(r));
                    let mut tokens: Vec<String> = Vec::new();
                    let mut j: usize = 0;
                    while j < items.len()
                        invariant
                            j <= items.len(),
                            texts.len() == items@.len(),
                            forall|k: int| 0 <= k < items@.len() ==> texts[k] == text(items@[k]@),
                            tokens@.len() == j,
                            forall|k: int| 0 <= k < j ==> (#[trigger] tokens@[k])@ == texts[k],
                        decreases items.len() - j,
                    {
                        let token = match &items[j] {
                            Resource::Worktree(path) => path.clone(),
                            Resource::UserToken(token) => token.clone(),
                        };
                        tokens.push(token);
                        j += 1;
                    }
                    assert(views(tokens@) =~= texts);
                    let ghost prev = token_lists(lists@);
                    lists.push((name.clone(), tokens));
                    assert(token_lists(lists@) =~= prev.push((name@, texts)));
                },
                ResourceKey::Worktree => {},
            }
            i += 1;
        }
        lists
    }
}

} // verus!
