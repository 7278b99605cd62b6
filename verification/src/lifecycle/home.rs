//! No two jobs share a worktree.

use crate::job::{react, react_to_cancel, ActionView};
use crate::lifecycle::order::{
    lemma_finish, lemma_job_of, lemma_react_ends, lemma_start, lemma_start_all,
};
use crate::lifecycle::sound::{lemma_cancel_gone_sound, lemma_phase_at, lemma_withdraw_sound};
use crate::lists::{slot_of, lemma_slot_below};
use crate::model::{
    case_ids, flight_ids, is_wanted, notify, result_key, result_of, tickets, EffectView,
    ManagerView, StepView,
};
use crate::lending::{
    lemma_grant_keeps, lemma_handle_is_held, lemma_release_keeps, lemma_schedule_held,
};
use crate::pool::{held_keys, PoolsView, ResourcesView};
use crate::resource::{text, KeyView, ResourceView};
use crate::test::{StatusView, TestCaseView};
use vstd::prelude::*;

verus! {

/// Whether `ticket` holds a worktree whose path is `dir`.
pub open spec fn holds_worktree(pools: PoolsView, ticket: u64, dir: Seq<char>) -> bool {
    exists|item: ResourceView| #[trigger]
        pools.holds_item(ticket, KeyView::Worktree, item) && text(item) == dir
}

/// Whether every process that the effects ask to start in a worktree is to
/// run in a worktree that its job holds.
pub open spec fn launches_at_home(effects: Seq<EffectView>, pools: PoolsView) -> bool {
    forall|k: int|
        0 <= k < effects.len() ==> ((#[trigger] effects[k]) matches EffectView::Launch { job, plan }
            ==> (plan.checkout ==> holds_worktree(pools, job, plan.current_dir)))
}

/// Whether a handle is held in `pools`: it has a place for each pool, with
/// the key of the pool, and its ticket holds every instance that it lists.
pub open spec fn handle_held(pools: PoolsView, h: ResourcesView) -> bool {
    &&& h.held.len() == pools.pools.len()
    &&& forall|i: int| 0 <= i < h.held.len() ==> (#[trigger] h.held[i]).0 == pools.pools[i].key
    &&& forall|i: int, m: int|
        0 <= i < h.held.len() && 0 <= m < h.held[i].1.len() ==> pools.holds_item(
            h.ticket,
            pools.pools[i].key,
            #[trigger] h.held[i].1[m],
        )
}

/// A job that is started with a handle that is held is to run in a worktree
/// that it holds, if it is to run in a worktree at all.
pub proof fn lemma_start_at_home(s: ManagerView, h: ResourcesView)
    requires
        handle_held(s.pools, h),
    ensures
        launches_at_home(s.start(h).1, s.start(h).0.pools),
{
    lemma_job_of(s, h.ticket);
    match s.job_of(h.ticket) {
        Some(i) => {
            let worktrees = h.of(KeyView::Worktree);
            if worktrees.len() > 0 {
                lemma_slot_below(held_keys(h.held), KeyView::Worktree, h.held.len() as int);
                let slot = slot_of(held_keys(h.held), KeyView::Worktree)->0;
                assert(held_keys(h.held)[slot] == h.held[slot].0);
                assert(s.pools.holds_item(h.ticket, s.pools.pools[slot].key, h.held[slot].1[0]));
                assert(holds_worktree(s.pools, h.ticket, text(worktrees[0])));
            }
        },
        None => {},
    }
}

/// What holds of starting one job with a handle that is held holds of
/// starting several.
pub proof fn lemma_start_all_at_home(s: ManagerView, handles: Seq<ResourcesView>, n: int)
    requires
        0 <= n <= handles.len(),
        forall|k: int| 0 <= k < handles.len() ==> handle_held(s.pools, #[trigger] handles[k]),
    ensures
        launches_at_home(s.start_all(handles, n).1, s.pools),
    decreases n,
{
    if n > 0 {
        lemma_start_all_at_home(s, handles, n - 1);
        lemma_start_all(s, handles, n - 1);
        let (then, first) = s.start_all(handles, n - 1);
        lemma_start_at_home(then, handles[n - 1]);
        lemma_start(then, handles[n - 1]);
        let last = then.start(handles[n - 1]).1;
        assert forall|k: int| 0 <= k < (first + last).len() implies ((
        #[trigger] (first + last)[k]) matches EffectView::Launch { job, plan } ==> (plan.checkout
            ==> holds_worktree(s.pools, job, plan.current_dir))) by {
            if k < first.len() {
                assert((first + last)[k] == first[k]);
            } else {
                assert((first + last)[k] == last[k - first.len()]);
            }
        }
    }
}

/// Whether every instance that a live job held before the step is held by
/// it after the step, and the pools have the same instances in the same slots.
pub open spec fn holds_on(s: ManagerView, end: ManagerView) -> bool {
    &&& end.pools.same_stock(s.pools)
    &&& (s.pools.shaped() ==> end.pools.shaped())
    &&& forall|i: int, j: int|
        0 <= i < s.pools.pools.len() && 0 <= j < s.pools.pools[i].holders.len() ==> ((
        #[trigger] s.pools.pools[i].holders[j]) matches Some(t) ==> end.live(t)
            ==> end.pools.pools[i].holders[j] == Some(t))
}

/// The end of a job takes instances from that job alone, and the jobs that
/// it starts are to run in worktrees that they hold.
pub proof fn lemma_finish_at_home(s: ManagerView, i: int, status: StatusView)
    requires
        s.inv(),
        s.pools.shaped(),
        0 <= i < s.jobs.len(),
        status.terminal(),
    ensures
        holds_on(s, s.finish(i, status).0),
        launches_at_home(s.finish(i, status).1, s.finish(i, status).0.pools),
{
    let job = s.jobs[i];
    let ticket = job.ticket;
    let withdrawn = s.pools.forget(ticket);
    let released = withdrawn.release(ticket);
    let (served, handles) = released.schedule();
    let results = match status {
        StatusView::Completed(result) => s.results.insert(result_key(job.test_case), result),
        _ => s.results,
    };
    let left = ManagerView { jobs: s.jobs.remove(i), pools: served, results, ..s };
    let n = handles.len() as int;
    let (end, started) = left.start_all(handles, n);
    lemma_release_keeps(withdrawn, ticket);
    assert(released.shaped());
    lemma_schedule_held(released);
    lemma_start_all(left, handles, n);
    lemma_finish(s, i, status);
    assert forall|k: int| 0 <= k < handles.len() implies handle_held(
        left.pools,
        #[trigger] handles[k],
    ) by {
        let h = handles[k];
        assert forall|a: int, m: int|
            0 <= a < h.held.len() && 0 <= m < h.held[a].1.len() implies left.pools.holds_item(
            h.ticket,
            left.pools.pools[a].key,
            #[trigger] h.held[a].1[m],
        ) by {
            assert(served.holds_item(handles[k].ticket, released.pools[a].key, handles[k].held[a].1[m]));
        }
    }
    lemma_start_all_at_home(left, handles, n);
    let effects = s.finish(i, status).1;
    let head = seq![
        notify(job.test_case, status),
        EffectView::Finish { job: job.ticket, result: result_of(status) },
    ];
    assert(effects == head + started);
    assert forall|k: int| 0 <= k < effects.len() implies ((
    #[trigger] effects[k]) matches EffectView::Launch { job, plan } ==> (plan.checkout
        ==> holds_worktree(end.pools, job, plan.current_dir))) by {
        if k >= 2 {
            assert(effects[k] == started[k - 2]);
        } else {
            assert(effects[k] == head[k]);
        }
    }
    assert forall|a: int, b: int|
        0 <= a < s.pools.pools.len() && 0 <= b < s.pools.pools[a].holders.len() implies ((
    #[trigger] s.pools.pools[a].holders[b]) matches Some(t) ==> end.live(t)
        ==> end.pools.pools[a].holders[b] == Some(t)) by {
        if let Some(t) = s.pools.pools[a].holders[b] {
            if end.live(t) {
                assert(t != ticket);
                assert(released.pools[a].holders[b] == Some(t));
            }
        }
    }
}

/// Who holds a worktree holds it still in pools that took no instance from
/// its holder.
pub proof fn lemma_at_home_still(effects: Seq<EffectView>, before: PoolsView, after: PoolsView)
    requires
        launches_at_home(effects, before),
        after.same_stock(before),
        after.keeps_holders(before),
    ensures
        launches_at_home(effects, after),
{
    assert forall|k: int| 0 <= k < effects.len() implies ((
    #[trigger] effects[k]) matches EffectView::Launch { job, plan } ==> (plan.checkout
        ==> holds_worktree(after, job, plan.current_dir))) by {
        if let EffectView::Launch { job, plan } = effects[k] {
            if plan.checkout {
                let item = choose|item: ResourceView| #[trigger]
                    before.holds_item(job, KeyView::Worktree, item) && text(item)
                        == plan.current_dir;
                let (i, j) = choose|i: int, j: int|
                    0 <= i < before.pools.len() && 0 <= j < before.pools[i].holders.len()
                        && before.pools[i].key == KeyView::Worktree
                        && #[trigger] before.pools[i].holders[j] == Some(job)
                        && before.pools[i].items[j] == item;
                assert(after.pools[i].holders[j] == Some(job));
                assert(after.holds_item(job, KeyView::Worktree, item));
            }
        }
    }
}

/// Effects that start jobs in worktrees that they hold, one after the
/// other, start jobs in worktrees that they hold.
pub proof fn lemma_at_home_both(first: Seq<EffectView>, last: Seq<EffectView>, pools: PoolsView)
    requires
        launches_at_home(first, pools),
        launches_at_home(last, pools),
    ensures
        launches_at_home(first + last, pools),
{
    assert forall|k: int| 0 <= k < (first + last).len() implies ((
    #[trigger] (first + last)[k]) matches EffectView::Launch { job, plan } ==> (plan.checkout
        ==> holds_worktree(pools, job, plan.current_dir))) by {
        if k < first.len() {
            assert((first + last)[k] == first[k]);
        } else {
            assert((first + last)[k] == last[k - first.len()]);
        }
    }
}

/// What a step within a change of the wanted set keeps: the pools have the
/// same instances, none is taken from its holder, and the jobs that are
/// started are to run in worktrees that they hold.
pub open spec fn at_home(s: ManagerView, end: ManagerView, effects: Seq<EffectView>) -> bool {
    &&& end.pools.same_stock(s.pools)
    &&& end.pools.keeps_holders(s.pools)
    &&& end.pools.shaped()
    &&& launches_at_home(effects, end.pools)
}

/// Two such steps, one after the other, make such a step.
pub proof fn lemma_at_home_then(
    s: ManagerView,
    then: ManagerView,
    first: Seq<EffectView>,
    end: ManagerView,
    last: Seq<EffectView>,
)
    requires
        at_home(s, then, first),
        at_home(then, end, last),
    ensures
        at_home(s, end, first + last),
{
    lemma_at_home_still(first, then.pools, end.pools);
    lemma_at_home_both(first, last, end.pools);
}

/// A cancellation takes no instance from its holder: a job that is past
/// waiting goes on, and one that waits holds nothing.
pub proof fn lemma_cancel_job_at_home(s: ManagerView, ticket: u64)
    requires
        s.sound(),
        s.pools.shaped(),
    ensures
        at_home(s, s.cancel_job(ticket).0, s.cancel_job(ticket).1),
{
    lemma_job_of(s, ticket);
    match s.job_of(ticket) {
        Some(i) => {
            let after = s.jobs[i].after_cancel();
            let moved = ManagerView { jobs: s.jobs.update(i, after), ..s };
            assert(tickets(moved.jobs) =~= tickets(s.jobs));
            match react_to_cancel(s.jobs[i].phase).1 {
                ActionView::Finish(status) => {
                    lemma_finish_at_home(moved, i, status);
                    let end = moved.finish(i, status).0;
                    // The job waited, so it held nothing.
                    lemma_phase_at(s, i);
                    assert(!s.pools.holds(ticket));
                    let withdrawn = s.pools.forget(ticket);
                    let released = withdrawn.release(ticket);
                    lemma_release_keeps(withdrawn, ticket);
                    lemma_schedule_held(released);
                    assert forall|a: int, b: int|
                        0 <= a < s.pools.pools.len() && 0 <= b < s.pools.pools[a].holders.len() && (
                        #[trigger] s.pools.pools[a].holders[b]) is Some implies end.pools.pools[a].holders[b]
                        == s.pools.pools[a].holders[b] by {
                        assert(s.pools.pools[a].holders[b] != Some(ticket));
                        assert(released.pools[a].holders[b] == s.pools.pools[a].holders[b]);
                        lemma_start_all(
                            ManagerView {
                                jobs: moved.jobs.remove(i),
                                pools: released.schedule().0,
                                results: moved.results,
                                ..moved
                            },
                            released.schedule().1,
                            released.schedule().1.len() as int,
                        );
                    }
                },
                _ => {},
            }
        },
        None => {},
    }
}

/// A job that asks for its resources takes no instance from its holder,
/// and where it is started it is to run in a worktree that it holds.
pub proof fn lemma_acquire_at_home(s: ManagerView, i: int)
    requires
        s.pools.shaped(),
        0 <= i < s.jobs.len(),
    ensures
        at_home(s, s.acquire(i).0, s.acquire(i).1),
{
    let job = s.jobs[i];
    let ticket = job.ticket;
    let wants = job.test_case.test.needs_resources;
    let (pools, handle) = s.pools.get(ticket, wants);
    let asked = ManagerView { pools, ..s };
    match handle {
        Some(h) => {
            lemma_grant_keeps(s.pools, ticket, wants);
            assert(handle_held(asked.pools, h)) by {
                assert forall|a: int, m: int|
                    0 <= a < h.held.len() && 0 <= m < h.held[a].1.len() implies asked.pools.holds_item(
                    h.ticket,
                    asked.pools.pools[a].key,
                    #[trigger] h.held[a].1[m],
                ) by {
                    lemma_handle_is_held(s.pools, ticket, wants, a, m);
                }
            }
            lemma_start_at_home(asked, h);
            lemma_start(asked, h);
        },
        None => {},
    }
}

/// A job that is spawned asks for nothing: the pools stay as they are, and
/// no process is started.
pub proof fn lemma_spawn_at_home(s: ManagerView, case: TestCaseView)
    requires
        s.pools.shaped(),
    ensures
        at_home(s, s.spawn(case).0, s.spawn(case).1),
{
}

/// Cancelling the jobs of what is wanted no more takes no instance from its
/// holder, and starts jobs in worktrees that they hold.
pub proof fn lemma_cancel_gone_at_home(
    s: ManagerView,
    entries: Seq<(Seq<char>, u64)>,
    wanted: Seq<Seq<char>>,
    i: int,
)
    requires
        s.sound(),
        s.pools.shaped(),
        0 <= i <= entries.len(),
    ensures
        at_home(s, s.cancel_gone(entries, wanted, i).0, s.cancel_gone(entries, wanted, i).1),
    decreases i,
{
    if i > 0 {
        lemma_cancel_gone_at_home(s, entries, wanted, i - 1);
        lemma_cancel_gone_sound(s, entries, wanted, i - 1);
        let (then, first) = s.cancel_gone(entries, wanted, i - 1);
        if !wanted.contains(entries[i - 1].0) {
            lemma_cancel_job_at_home(then, entries[i - 1].1);
            let (end, last) = then.cancel_job(entries[i - 1].1);
            lemma_at_home_then(s, then, first, end, last);
        }
    }
}

/// Taking up new cases takes no instance from its holder, and starts jobs
/// in worktrees that they hold.
pub proof fn lemma_take_up_new_at_home(
    base: ManagerView,
    known: Seq<Seq<char>>,
    cases: Seq<TestCaseView>,
    k: int,
)
    requires
        base.pools.shaped(),
        0 <= k <= cases.len(),
    ensures
        at_home(base, base.take_up_new(known, cases, k).0, base.take_up_new(known, cases, k).1),
    decreases k,
{
    if k > 0 {
        lemma_take_up_new_at_home(base, known, cases, k - 1);
        let (then, first) = base.take_up_new(known, cases, k - 1);
        if ManagerView::is_new(known, cases, k - 1) {
            let (end, last) = then.take_up(cases[k - 1]);
            if then.cache_lookup(cases[k - 1]) is None {
                lemma_spawn_at_home(then, cases[k - 1]);
            }
            lemma_at_home_then(base, then, first, end, last);
        }
    }
}

/// No two jobs share a worktree.
///
/// An instance has one holder at most. Whatever step the manager takes, an
/// instance that a job holds stays with that job for as long as the job is
/// not over, and a process that is to run in a worktree is started in a
/// worktree that its job holds from then on. So of two jobs that are not
/// over, each runs in a worktree of its own.
pub proof fn lemma_step_at_home(s: ManagerView, step: StepView)
    requires
        s.steady(),
    ensures
        holds_on(s, s.step(step).0),
        launches_at_home(s.step(step).1, s.step(step).0.pools),
{
    match step {
        StepView::Report { ticket, event } => {
            lemma_job_of(s, ticket);
            match s.job_of(ticket) {
                Some(i) => {
                    let after = s.jobs[i].after(event);
                    let moved = ManagerView { jobs: s.jobs.update(i, after), ..s };
                    assert(tickets(moved.jobs) =~= tickets(s.jobs));
                    lemma_react_ends(s.jobs[i].phase, s.jobs[i].cancelled, event);
                    match react(s.jobs[i].phase, s.jobs[i].cancelled, event).1 {
                        ActionView::Finish(status) => {
                            lemma_finish_at_home(moved, i, status);
                        },
                        ActionView::Acquire => {
                            lemma_acquire_at_home(moved, i);
                        },
                        _ => {},
                    }
                },
                None => {},
            }
        },
        StepView::Want { cases } => {
            if !s.exhausted(cases.len()) {
                let wanted = case_ids(cases);
                let known = flight_ids(s.in_flight);
                let n = s.in_flight.len() as int;
                let marked = ManagerView { pools: s.withdraw_gone(s.in_flight, wanted, n), ..s };
                lemma_withdraw_sound(s, s.in_flight, wanted, n);
                assert(marked.pools.shaped());
                lemma_cancel_gone_at_home(marked, s.in_flight, wanted, n);
                let (then, cancelled) = marked.cancel_gone(s.in_flight, wanted, n);
                let kept = ManagerView { in_flight: s.in_flight.filter(is_wanted(wanted)), ..then };
                lemma_take_up_new_at_home(kept, known, cases, cases.len() as int);
                let (end, started) = kept.take_up_new(known, cases, cases.len() as int);
                assert(at_home(marked, kept, cancelled));
                lemma_at_home_then(marked, kept, cancelled, end, started);
            }
        },
    }
}

/// Whether `j` is a slot of a pool of worktrees, the pool at `i`.
pub open spec fn worktree_slot(pools: PoolsView, i: int, j: int) -> bool {
    0 <= i < pools.pools.len() && pools.pools[i].key == KeyView::Worktree && 0 <= j
        < pools.pools[i].items.len()
}

impl ManagerView {
    /// Every worktree has a directory of its own: no two slots of worktrees
    /// hold one path, and none holds the path of the origin repository.
    pub open spec fn housed(self) -> bool {
        forall|i: int, j: int, a: int, b: int|
            #![trigger worktree_slot(self.pools, i, j), worktree_slot(self.pools, a, b)]
            worktree_slot(self.pools, i, j) && worktree_slot(self.pools, a, b) ==> text(
                self.pools.pools[i].items[j],
            ) != self.origin && (text(self.pools.pools[i].items[j]) == text(
                self.pools.pools[a].items[b],
            ) ==> i == a && j == b)
    }
}

/// The pools keep their worktrees: where the instances stay in their slots
/// and the origin stays, every worktree has a directory of its own still.
pub proof fn lemma_housed_still(s: ManagerView, end: ManagerView)
    requires
        s.housed(),
        end.pools.same_stock(s.pools),
        end.origin == s.origin,
    ensures
        end.housed(),
{
    assert forall|i: int, j: int, a: int, b: int|
        #![trigger worktree_slot(end.pools, i, j), worktree_slot(end.pools, a, b)]
        worktree_slot(end.pools, i, j) && worktree_slot(end.pools, a, b) implies text(
        end.pools.pools[i].items[j],
    ) != end.origin && (text(end.pools.pools[i].items[j]) == text(end.pools.pools[a].items[b])
        ==> i == a && j == b) by {
        assert(worktree_slot(s.pools, i, j) && worktree_slot(s.pools, a, b));
    }
}

/// No two jobs run in one directory, and none runs in the origin
/// repository while it holds a worktree. Where every worktree has a
/// directory of its own, two tickets that hold a worktree of one path are
/// one ticket, and the path of a worktree that is held is not the origin's.
pub proof fn lemma_dirs_apart(s: ManagerView, a: u64, b: u64, dir: Seq<char>)
    requires
        s.housed(),
        s.pools.shaped(),
        holds_worktree(s.pools, a, dir),
        holds_worktree(s.pools, b, dir),
    ensures
        a == b,
        dir != s.origin,
{
    let item_a = choose|item: ResourceView| #[trigger]
        s.pools.holds_item(a, KeyView::Worktree, item) && text(item) == dir;
    let (i, j) = choose|i: int, j: int|
        0 <= i < s.pools.pools.len() && 0 <= j < s.pools.pools[i].holders.len()
            && s.pools.pools[i].key == KeyView::Worktree
            && #[trigger] s.pools.pools[i].holders[j] == Some(a) && s.pools.pools[i].items[j]
            == item_a;
    let item_b = choose|item: ResourceView| #[trigger]
        s.pools.holds_item(b, KeyView::Worktree, item) && text(item) == dir;
    let (x, y) = choose|x: int, y: int|
        0 <= x < s.pools.pools.len() && 0 <= y < s.pools.pools[x].holders.len()
            && s.pools.pools[x].key == KeyView::Worktree
            && #[trigger] s.pools.pools[x].holders[y] == Some(b) && s.pools.pools[x].items[y]
            == item_b;
    assert(worktree_slot(s.pools, i, j) && worktree_slot(s.pools, x, y));
}

} // verus!
