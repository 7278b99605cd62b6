//! When jobs are started: a change of the wanted set starts none of the
//! jobs that it spawns.

use crate::job::{react_to_cancel, ActionView, JobPhase, JobView};
use crate::lifecycle::cancel::lemma_cancel_job_untouched;
use crate::lending::waiting;
use crate::lifecycle::order::{launched, lemma_cancel_gone, lemma_job_of, lemma_start_all};
use crate::lifecycle::sound::lemma_withdraw_sound;
use crate::model::{
    case_ids, flight_ids, is_wanted, notify, result_key, result_of, tickets, EffectView,
    ManagerView,
};
use crate::pool::ResourcesView;
use crate::test::{StatusView, TestCaseView};
use vstd::prelude::*;

verus! {

/// Whether the effect tells that a job is started.
pub open spec fn told_started(effect: EffectView) -> bool {
    effect matches EffectView::Notify(n) && n.status is Started
}

/// The ticket of the job whose supervisor the effect asks for, if it asks for that.
pub open spec fn asked_for(effect: EffectView) -> Option<u64> {
    match effect {
        EffectView::Spawn { job } => Some(job),
        _ => None,
    }
}

/// Whether one of `jobs` has `ticket`, and `case` is its case.
pub open spec fn job_with(jobs: Seq<JobView>, ticket: u64, case: TestCaseView) -> bool {
    exists|i: int|
        0 <= i < jobs.len() && (#[trigger] jobs[i]).ticket == ticket && jobs[i].test_case == case
}

/// Whether every job of `some` is one of `all`, with the same case.
pub open spec fn jobs_among(some: Seq<JobView>, all: Seq<JobView>) -> bool {
    forall|t: u64, c: TestCaseView| #[trigger] job_with(some, t, c) ==> job_with(all, t, c)
}

/// Whether a case is told as started only together with the process of
/// its job being asked for: the effect that tells it is followed at once
/// by the one that asks for the process of one of `jobs`, whose case it is.
pub open spec fn paired(jobs: Seq<JobView>, effects: Seq<EffectView>) -> bool {
    forall|k: int|
        0 <= k < effects.len() && told_started(#[trigger] effects[k]) ==> k + 1 < effects.len() && (
        launched(effects[k + 1]) matches Some(t) && job_with(
            jobs,
            t,
            effects[k]->Notify_0.test_case,
        ))
}

/// Whether none of the effects tells that a job is started or asks for a process.
pub open spec fn starts_nothing(effects: Seq<EffectView>) -> bool {
    forall|k: int|
        0 <= k < effects.len() ==> !told_started(#[trigger] effects[k]) && launched(effects[k])
            is None
}

/// Whether the effects start only jobs that waited in the queue of `s`,
/// and none of those that they spawn:
/// - a case is told as started only together with the process of its job
///   being asked for, and that job is a job of `s`;
/// - no process is asked for but that of a job that waited in the queue of `s`;
/// - no supervisor is asked for but that of a job that is none of `s`.
pub open spec fn starts_only_waiting(s: ManagerView, effects: Seq<EffectView>) -> bool {
    &&& paired(s.jobs, effects)
    &&& forall|k: int|
        0 <= k < effects.len() ==> (launched(#[trigger] effects[k]) matches Some(t)
            ==> s.pools.waits(t) && s.live(t))
    &&& forall|k: int|
        0 <= k < effects.len() ==> (asked_for(#[trigger] effects[k]) matches Some(t) ==> !s.live(t))
}

/// Effects that start only jobs that waited start none of the jobs that
/// they spawn: the job whose supervisor is asked for is not one whose
/// process is asked for, and where a case is told as started, it is told of
/// another job.
pub proof fn lemma_spawned_is_not_started(
    s: ManagerView,
    effects: Seq<EffectView>,
    j: int,
    k: int,
    ticket: u64,
)
    requires
        starts_only_waiting(s, effects),
        0 <= j < effects.len(),
        0 <= k < effects.len(),
        asked_for(effects[j]) == Some(ticket),
    ensures
        launched(effects[k]) != Some(ticket),
        told_started(effects[k]) ==> k + 1 < effects.len() && launched(effects[k + 1]) is Some
            && launched(effects[k + 1]) != Some(ticket),
{
}

/// Effects that are paired, one lot after the other, are paired.
pub proof fn lemma_paired_both(jobs: Seq<JobView>, first: Seq<EffectView>, last: Seq<EffectView>)
    requires
        paired(jobs, first),
        paired(jobs, last),
    ensures
        paired(jobs, first + last),
{
    let all = first + last;
    assert forall|k: int| 0 <= k < all.len() && told_started(#[trigger] all[k]) implies k + 1
        < all.len() && (launched(all[k + 1]) matches Some(t) && job_with(
        jobs,
        t,
        all[k]->Notify_0.test_case,
    )) by {
        if k < first.len() {
            assert(all[k] == first[k]);
            assert(all[k + 1] == first[k + 1]);
        } else {
            assert(all[k] == last[k - first.len()]);
            assert(all[k + 1] == last[k + 1 - first.len()]);
        }
    }
}

/// What is paired over some jobs is paired over all.
pub proof fn lemma_paired_among(some: Seq<JobView>, all: Seq<JobView>, effects: Seq<EffectView>)
    requires
        paired(some, effects),
        jobs_among(some, all),
    ensures
        paired(all, effects),
{
    assert forall|k: int| 0 <= k < effects.len() && told_started(#[trigger] effects[k]) implies k
        + 1 < effects.len() && (launched(effects[k + 1]) matches Some(t) && job_with(
        all,
        t,
        effects[k]->Notify_0.test_case,
    )) by {
        let t = launched(effects[k + 1])->0;
        assert(job_with(some, t, effects[k]->Notify_0.test_case));
    }
}

/// Jobs that have, place by place, the tickets and cases of others are among them.
pub proof fn lemma_among_same(some: Seq<JobView>, all: Seq<JobView>)
    requires
        some.len() == all.len(),
        forall|i: int|
            0 <= i < some.len() ==> (#[trigger] some[i]).ticket == all[i].ticket
                && some[i].test_case == all[i].test_case,
    ensures
        jobs_among(some, all),
{
    assert forall|t: u64, c: TestCaseView| #[trigger] job_with(some, t, c) implies job_with(
        all,
        t,
        c,
    ) by {
        let i = choose|i: int|
            0 <= i < some.len() && (#[trigger] some[i]).ticket == t && some[i].test_case == c;
        assert(all[i].ticket == t && all[i].test_case == c);
    }
}

/// The jobs that are left when one is taken out are among those that were.
pub proof fn lemma_among_without(all: Seq<JobView>, i: int)
    requires
        0 <= i < all.len(),
    ensures
        jobs_among(all.remove(i), all),
{
    let some = all.remove(i);
    assert forall|t: u64, c: TestCaseView| #[trigger] job_with(some, t, c) implies job_with(
        all,
        t,
        c,
    ) by {
        let a = choose|a: int|
            0 <= a < some.len() && (#[trigger] some[a]).ticket == t && some[a].test_case == c;
        let b = if a < i {
            a
        } else {
            a + 1
        };
        assert(all[b] == some[a]);
    }
}

/// Starting a job tells its case as started and asks for its process, the
/// one behind the other.
pub proof fn lemma_start_paired(s: ManagerView, handle: ResourcesView)
    ensures
        paired(s.jobs, s.start(handle).1),
{
    lemma_job_of(s, handle.ticket);
    match s.job_of(handle.ticket) {
        Some(i) => {
            assert(s.jobs[i].ticket == handle.ticket);
            assert(job_with(s.jobs, handle.ticket, s.jobs[i].test_case));
        },
        None => {},
    }
}

/// What holds of starting one job holds of starting several.
pub proof fn lemma_start_all_paired(s: ManagerView, handles: Seq<ResourcesView>, n: int)
    requires
        0 <= n <= handles.len(),
    ensures
        paired(s.jobs, s.start_all(handles, n).1),
    decreases n,
{
    if n > 0 {
        lemma_start_all_paired(s, handles, n - 1);
        let (then, first) = s.start_all(handles, n - 1);
        lemma_start_all(s, handles, n - 1);
        lemma_start_paired(then, handles[n - 1]);
        let last = then.start(handles[n - 1]).1;
        assert forall|i: int| 0 <= i < then.jobs.len() implies (#[trigger] then.jobs[i]).ticket
            == s.jobs[i].ticket by {
            assert(tickets(then.jobs)[i] == tickets(s.jobs)[i]);
        }
        lemma_among_same(then.jobs, s.jobs);
        lemma_paired_among(then.jobs, s.jobs, last);
        lemma_paired_both(s.jobs, first, last);
    }
}

/// The end of a job tells as started only the jobs that it starts, and
/// leaves no job that was not there.
pub proof fn lemma_finish_paired(s: ManagerView, i: int, status: StatusView)
    requires
        0 <= i < s.jobs.len(),
        status.terminal(),
    ensures
        paired(s.jobs, s.finish(i, status).1),
        jobs_among(s.finish(i, status).0.jobs, s.jobs),
{
    let job = s.jobs[i];
    let (pools, granted) = s.pools.leave(job.ticket);
    let results = match status {
        StatusView::Completed(result) => s.results.insert(result_key(job.test_case), result),
        _ => s.results,
    };
    let left = ManagerView { jobs: s.jobs.remove(i), pools, results, ..s };
    let (end, started) = left.start_all(granted, granted.len() as int);
    lemma_start_all_paired(left, granted, granted.len() as int);
    lemma_start_all(left, granted, granted.len() as int);
    lemma_among_without(s.jobs, i);
    lemma_paired_among(left.jobs, s.jobs, started);
    assert forall|j: int| 0 <= j < end.jobs.len() implies (#[trigger] end.jobs[j]).ticket
        == left.jobs[j].ticket by {
        assert(tickets(end.jobs)[j] == tickets(left.jobs)[j]);
    }
    lemma_among_same(end.jobs, left.jobs);
    let head = seq![
        notify(job.test_case, status),
        EffectView::Finish { job: job.ticket, result: result_of(status) },
    ];
    assert(paired(s.jobs, head));
    lemma_paired_both(s.jobs, head, started);
}

/// A cancellation tells as started only the jobs that it starts, and
/// leaves no job that was not there.
pub proof fn lemma_cancel_job_paired(s: ManagerView, ticket: u64)
    ensures
        paired(s.jobs, s.cancel_job(ticket).1),
        jobs_among(s.cancel_job(ticket).0.jobs, s.jobs),
{
    lemma_job_of(s, ticket);
    match s.job_of(ticket) {
        Some(i) => {
            let moved = ManagerView { jobs: s.jobs.update(i, s.jobs[i].after_cancel()), ..s };
            lemma_among_same(moved.jobs, s.jobs);
            match react_to_cancel(s.jobs[i].phase).1 {
                ActionView::Finish(status) => {
                    lemma_finish_paired(moved, i, status);
                    lemma_paired_among(moved.jobs, s.jobs, moved.finish(i, status).1);
                },
                _ => {},
            }
        },
        None => {},
    }
}

/// Cancelling the jobs of what is wanted no more starts only jobs that
/// waited in the queue, lets nobody come to wait there, and asks for no
/// supervisor.
pub proof fn lemma_cancel_gone_starts(
    s: ManagerView,
    entries: Seq<(Seq<char>, u64)>,
    wanted: Seq<Seq<char>>,
    i: int,
)
    requires
        s.sound(),
        0 <= i <= entries.len(),
    ensures
        starts_only_waiting(s, s.cancel_gone(entries, wanted, i).1),
        jobs_among(s.cancel_gone(entries, wanted, i).0.jobs, s.jobs),
        forall|t: u64| s.cancel_gone(entries, wanted, i).0.pools.waits(t) ==> s.pools.waits(t),
        forall|k: int|
            0 <= k < s.cancel_gone(entries, wanted, i).1.len() ==> asked_for(
                #[trigger] s.cancel_gone(entries, wanted, i).1[k],
            ) is None,
    decreases i,
{
    if i > 0 {
        lemma_cancel_gone_starts(s, entries, wanted, i - 1);
        lemma_cancel_gone(s, entries, wanted, i - 1);
        let (then, first) = s.cancel_gone(entries, wanted, i - 1);
        if !wanted.contains(entries[i - 1].0) {
            let ticket = entries[i - 1].1;
            let last = then.cancel_job(ticket).1;
            lemma_cancel_job_untouched(then, ticket);
            lemma_cancel_job_paired(then, ticket);
            lemma_cancel_job_asks(then, ticket);
            lemma_paired_among(then.jobs, s.jobs, last);
            lemma_paired_both(s.jobs, first, last);
            let all = first + last;
            assert forall|k: int| 0 <= k < all.len() implies (launched(#[trigger] all[k])
                matches Some(t) ==> s.pools.waits(t) && s.live(t)) && asked_for(all[k])
                is None by {
                if k < first.len() {
                    assert(all[k] == first[k]);
                } else {
                    assert(all[k] == last[k - first.len()]);
                    if let Some(t) = launched(last[k - first.len()]) {
                        assert(then.pools.waits(t));
                        lemma_waits_is_live(s, t);
                    }
                }
            }
        }
    }
}

/// Who waits in the queue of the pools is a job.
pub proof fn lemma_waits_is_live(s: ManagerView, ticket: u64)
    requires
        s.sound(),
        s.pools.waits(ticket),
    ensures
        s.live(ticket),
{
    let w = choose|w: int| 0 <= w < s.pools.waiters.len() && s.pools.waiters[w].ticket == ticket;
    assert(waiting(s.pools.waiters)[w] == ticket);
    assert(s.phase_of(waiting(s.pools.waiters)[w]) == Some(JobPhase::Waiting));
    lemma_job_of(s, ticket);
}

/// A cancellation asks for no supervisor.
pub proof fn lemma_cancel_job_asks(s: ManagerView, ticket: u64)
    ensures
        forall|k: int|
            0 <= k < s.cancel_job(ticket).1.len() ==> asked_for(#[trigger] s.cancel_job(ticket).1[k])
                is None,
{
    lemma_job_of(s, ticket);
    match s.job_of(ticket) {
        Some(i) => {
            let moved = ManagerView { jobs: s.jobs.update(i, s.jobs[i].after_cancel()), ..s };
            match react_to_cancel(s.jobs[i].phase).1 {
                ActionView::Finish(status) => {
                    lemma_finish_asks(moved, i, status);
                },
                _ => {},
            }
        },
        None => {},
    }
}

/// Starting jobs asks for no supervisor.
pub proof fn lemma_start_all_asks(s: ManagerView, handles: Seq<ResourcesView>, n: int)
    requires
        0 <= n <= handles.len(),
    ensures
        forall|k: int|
            0 <= k < s.start_all(handles, n).1.len() ==> asked_for(
                #[trigger] s.start_all(handles, n).1[k],
            ) is None,
    decreases n,
{
    if n > 0 {
        lemma_start_all_asks(s, handles, n - 1);
        let (then, first) = s.start_all(handles, n - 1);
        let last = then.start(handles[n - 1]).1;
        let all = first + last;
        assert forall|k: int| 0 <= k < all.len() implies asked_for(#[trigger] all[k]) is None by {
            if k < first.len() {
                assert(all[k] == first[k]);
            } else {
                assert(all[k] == last[k - first.len()]);
            }
        }
    }
}

/// The end of a job asks for no supervisor.
pub proof fn lemma_finish_asks(s: ManagerView, i: int, status: StatusView)
    requires
        0 <= i < s.jobs.len(),
    ensures
        forall|k: int|
            0 <= k < s.finish(i, status).1.len() ==> asked_for(#[trigger] s.finish(i, status).1[k])
                is None,
{
    let job = s.jobs[i];
    let (pools, granted) = s.pools.leave(job.ticket);
    let results = match status {
        StatusView::Completed(result) => s.results.insert(result_key(job.test_case), result),
        _ => s.results,
    };
    let left = ManagerView { jobs: s.jobs.remove(i), pools, results, ..s };
    let started = left.start_all(granted, granted.len() as int).1;
    lemma_start_all_asks(left, granted, granted.len() as int);
    let head = seq![
        notify(job.test_case, status),
        EffectView::Finish { job: job.ticket, result: result_of(status) },
    ];
    let all = head + started;
    assert forall|k: int| 0 <= k < all.len() implies asked_for(#[trigger] all[k]) is None by {
        if k < head.len() {
            assert(all[k] == head[k]);
        } else {
            assert(all[k] == started[k - head.len()]);
        }
    }
}

/// Taking up new cases starts nothing: a job that is spawned is told as
/// enqueued and its supervisor is asked for, no more; and it has a ticket
/// that no job had before.
pub proof fn lemma_take_up_new_starts(
    base: ManagerView,
    known: Seq<Seq<char>>,
    cases: Seq<TestCaseView>,
    k: int,
)
    requires
        0 <= k <= cases.len(),
        base.next_ticket + k <= u64::MAX,
    ensures
        starts_nothing(base.take_up_new(known, cases, k).1),
        base.next_ticket <= base.take_up_new(known, cases, k).0.next_ticket <= base.next_ticket + k,
        forall|j: int|
            0 <= j < base.take_up_new(known, cases, k).1.len() ==> (asked_for(
                #[trigger] base.take_up_new(known, cases, k).1[j],
            ) matches Some(t) ==> t >= base.next_ticket),
    decreases k,
{
    if k > 0 {
        lemma_take_up_new_starts(base, known, cases, k - 1);
        let (then, first) = base.take_up_new(known, cases, k - 1);
        if ManagerView::is_new(known, cases, k - 1) {
            let last = then.take_up(cases[k - 1]).1;
            let all = first + last;
            assert forall|j: int| 0 <= j < all.len() implies !told_started(#[trigger] all[j])
                && launched(all[j]) is None && (asked_for(all[j]) matches Some(t) ==> t
                >= base.next_ticket) by {
                if j < first.len() {
                    assert(all[j] == first[j]);
                } else {
                    assert(all[j] == last[j - first.len()]);
                }
            }
        }
    }
}

/// A change of the wanted set starts none of the jobs that it spawns. What
/// it starts are jobs that waited in the queue of the pools before, for
/// what the jobs that it cancels give back; a job that it spawns is told as
/// enqueued, and is neither told as started nor is its process asked for
/// before its supervisor has had its first turn.
pub proof fn lemma_set_cases_starts(s: ManagerView, cases: Seq<TestCaseView>)
    requires
        s.sound(),
        !s.exhausted(cases.len()),
    ensures
        starts_only_waiting(s, s.set_cases(cases).1),
{
    let wanted = case_ids(cases);
    let known = flight_ids(s.in_flight);
    let n = s.in_flight.len() as int;
    let marked = ManagerView { pools: s.withdraw_gone(s.in_flight, wanted, n), ..s };
    lemma_withdraw_sound(s, s.in_flight, wanted, n);
    lemma_cancel_gone_starts(marked, s.in_flight, wanted, n);
    lemma_cancel_gone(marked, s.in_flight, wanted, n);
    let (then, cancelled) = marked.cancel_gone(s.in_flight, wanted, n);
    let kept = ManagerView { in_flight: s.in_flight.filter(is_wanted(wanted)), ..then };
    let taken = kept.take_up_new(known, cases, cases.len() as int).1;
    lemma_take_up_new_starts(kept, known, cases, cases.len() as int);
    assert(paired(s.jobs, taken));
    lemma_paired_both(s.jobs, cancelled, taken);
    let all = cancelled + taken;
    assert forall|k: int| 0 <= k < all.len() implies (launched(#[trigger] all[k]) matches Some(t)
        ==> s.pools.waits(t) && s.live(t)) && (asked_for(all[k]) matches Some(t) ==> !s.live(
        t,
    )) by {
        if k < cancelled.len() {
            assert(all[k] == cancelled[k]);
            if let Some(t) = launched(cancelled[k]) {
                assert(marked.pools.waits(t));
            }
        } else {
            assert(all[k] == taken[k - cancelled.len()]);
            if let Some(t) = asked_for(taken[k - cancelled.len()]) {
                lemma_job_of(s, t);
            }
        }
    }
}

} // verus!
